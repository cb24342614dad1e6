//! Errors that the protocol engine itself can raise.
//!
//! Transport and file-system failures belong to the caller that drives the
//! sockets; the engine only ever reports a frame that would not fit on the
//! wire or bytes that do not form a known message.

use vstd::prelude::*;

verus! {

/// An error of the frame codec.
#[derive(Clone, Copy, Debug, PartialEq, Eq, Structural)]
pub enum Error {
    /// The serialized message would exceed the maximum frame content size.
    DataTooLarge,
    /// A complete frame was read whose content does not form a known message.
    Malformed,
}

} // verus!
