//! A length-framed binary protocol for transferring a file between two peers
//! over a byte stream, with transfer control and end-to-end integrity
//! verification.
//!
//! The crate holds the protocol engine itself: the frame codec
//! ([`codec`]), the request/response message model, the per-file
//! fragment-reassembly state machine of the receiving side ([`slave`]), the
//! controllable sending side ([`master`]), and the discovery announcement
//! payload ([`discovery`]). Sockets, files and channels are left to the
//! caller, which hands the engine plain values and performs the actions the
//! engine decides on.

pub mod codec;
pub mod discovery;
pub mod error;
pub mod master;
pub mod slave;
pub mod utils;
