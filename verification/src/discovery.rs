//! The discovery announcement payload: a recognizable marker plus the
//! announcing peer's service port.
//!
//! The datagram sockets that broadcast and receive these payloads belong to
//! the caller; here stand only the payload itself and its recognition.

use vstd::prelude::*;

use crate::codec::u16_be_seq;
use crate::utils::{be16, u16_to_u8_array, u8_array_to_u16};

verus! {

/// The marker that opens every announcement datagram.
pub open spec fn magic_seq() -> Seq<u8> {
    seq![0xBu8, 0x2Du8, 0xEu8, 0x13u8, 0x13u8, 0x8u8, 0xAu8]
}

/// The announcement datagram for a peer whose service listens on
/// `service_port`: the marker, then the port in two big-endian bytes.
pub fn announcement_payload(service_port: u16) -> (r: Vec<u8>)
    ensures
        r@ == magic_seq() + u16_be_seq(service_port as int),
{
    let mut r: Vec<u8> = Vec::new();
    r.push(0xB);
    r.push(0x2D);
    r.push(0xE);
    r.push(0x13);
    r.push(0x13);
    r.push(0x8);
    r.push(0xA);
    let b: [u8; 2] = u16_to_u8_array(service_port);
    r.push(b[0]);
    r.push(b[1]);
    proof {
        assert(r@ =~= magic_seq() + u16_be_seq(service_port as int));
    }
    r
}

/// Reads a received datagram: the announced service port when the marker
/// opens it, nothing otherwise.
pub fn parse_announcement(buf: &Vec<u8>) -> (r: Option<u16>)
    ensures
        match r {
            Some(port) => buf@.len() >= 9 && buf@.subrange(0, 7) == magic_seq() && port == be16(
                buf@[7],
                buf@[8],
            ),
            None => buf@.len() < 9 || buf@.subrange(0, 7) != magic_seq(),
        },
{
    if buf.len() < 9 {
        return None;
    }
    if buf[0] == 0xB && buf[1] == 0x2D && buf[2] == 0xE && buf[3] == 0x13 && buf[4] == 0x13
        && buf[5] == 0x8 && buf[6] == 0xA {
        proof {
            assert(buf@.subrange(0, 7) =~= magic_seq());
        }
        Some(u8_array_to_u16([buf[7], buf[8]]))
    } else {
        proof {
            if buf@.subrange(0, 7) == magic_seq() {
                assert(buf@[0] == magic_seq()[0]);
                assert(buf@[1] == magic_seq()[1]);
                assert(buf@[2] == magic_seq()[2]);
                assert(buf@[3] == magic_seq()[3]);
                assert(buf@[4] == magic_seq()[4]);
                assert(buf@[5] == magic_seq()[5]);
                assert(buf@[6] == magic_seq()[6]);
            }
        }
        None
    }
}

} // verus!
