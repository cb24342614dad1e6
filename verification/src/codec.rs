//! The frame codec and the request/response message model.
//!
//! A frame on the wire is a two-byte big-endian total length followed by the
//! serialized message; the total length counts its own two bytes. The
//! serialized content of one frame never exceeds [`MAX_CONTENT_SIZE`] bytes,
//! so a whole frame fits in one 1500-byte link MTU. The byte layout of a
//! message is an internal contract between the two ends of a connection; it
//! is written out by [`request_payload`] and [`response_payload`] and read
//! back by [`parse_request`] and [`parse_response`].

use vstd::prelude::*;

use crate::error::Error;
use crate::utils::{be16, u16_to_u8_array, u8_array_to_u16};

verus! {

/// Largest serialized message that fits in one frame: the 1500-byte MTU
/// minus the two-byte length prefix.
pub const MAX_CONTENT_SIZE: usize = 1498;

/// Largest `data` field of one `FileFragment`, leaving headroom for the rest
/// of the serialized envelope under the content ceiling.
pub const MAX_FILE_FARGMENT_SIZE: usize = 1477;

/// Tag byte that opens each serialized request.
pub const TAG_PING: u8 = 0;
pub const TAG_FILE_FRAGMENT: u8 = 1;
pub const TAG_FILE_METADATA: u8 = 2;
pub const TAG_END_OF_FILE: u8 = 3;
pub const TAG_DROP_FILE: u8 = 4;

/// Tag byte that opens each serialized response.
pub const TAG_PONG: u8 = 0;
pub const TAG_OK: u8 = 1;
pub const TAG_FILE_ID_NOT_FOUND: u8 = 2;
pub const TAG_CANNOT_SAVE_FILE: u8 = 3;
pub const TAG_CHECKSUM_NOT_MATCHED: u8 = 4;

/// A request sent by the sending side ("master") to the receiving side.
#[derive(Debug, Clone)]
pub enum MasterRequest {
    /// Liveness probe.
    Ping,
    /// One ordered chunk of the file. `index` is a sequence number starting
    /// at 0, not a byte offset.
    FileFragment { file_id: u8, index: u32, data: Vec<u8> },
    /// Opens a transfer: the display name and the hex digest of the file,
    /// both as bytes.
    FileMetadata { file_id: u8, file_name: Vec<u8>, sha256: Vec<u8> },
    /// No more fragments follow; triggers reassembly.
    EndOfFile { file_id: u8 },
    /// Aborts an in-flight transfer; the receiver discards its state.
    DropFile { file_id: u8 },
}

/// The mathematical value of a [`MasterRequest`], with byte vectors as
/// sequences.
pub enum RequestView {
    Ping,
    FileFragment { file_id: u8, index: u32, data: Seq<u8> },
    FileMetadata { file_id: u8, file_name: Seq<u8>, sha256: Seq<u8> },
    EndOfFile { file_id: u8 },
    DropFile { file_id: u8 },
}

impl View for MasterRequest {
    type V = RequestView;

    open spec fn view(&self) -> RequestView {
        match self {
            MasterRequest::Ping => RequestView::Ping,
            MasterRequest::FileFragment { file_id, index, data } => RequestView::FileFragment {
                file_id: *file_id,
                index: *index,
                data: data@,
            },
            MasterRequest::FileMetadata { file_id, file_name, sha256 } => RequestView::FileMetadata {
                file_id: *file_id,
                file_name: file_name@,
                sha256: sha256@,
            },
            MasterRequest::EndOfFile { file_id } => RequestView::EndOfFile { file_id: *file_id },
            MasterRequest::DropFile { file_id } => RequestView::DropFile { file_id: *file_id },
        }
    }
}

impl PartialEq for MasterRequest {
    fn eq(&self, other: &Self) -> (r: bool) {
        match (self, other) {
            (MasterRequest::Ping, MasterRequest::Ping) => true,
            (
                MasterRequest::FileFragment { file_id: a, index: b, data: c },
                MasterRequest::FileFragment { file_id: d, index: e, data: f },
            ) => {
                let same = *a == *d && *b == *e && c == f;
                proof {
                    if c@.len() == f@.len() && (forall|i: int|
                        #![auto]
                        0 <= i < c@.len() ==> c@[i] == f@[i]) {
                        assert(c@ =~= f@);
                    }
                }
                same
            },
            (
                MasterRequest::FileMetadata { file_id: a, file_name: b, sha256: c },
                MasterRequest::FileMetadata { file_id: d, file_name: e, sha256: f },
            ) => {
                let same = *a == *d && b == e && c == f;
                proof {
                    if b@.len() == e@.len() && (forall|i: int|
                        #![auto]
                        0 <= i < b@.len() ==> b@[i] == e@[i]) {
                        assert(b@ =~= e@);
                    }
                    if c@.len() == f@.len() && (forall|i: int|
                        #![auto]
                        0 <= i < c@.len() ==> c@[i] == f@[i]) {
                        assert(c@ =~= f@);
                    }
                }
                same
            },
            (
                MasterRequest::EndOfFile { file_id: a },
                MasterRequest::EndOfFile { file_id: b },
            ) => *a == *b,
            (
                MasterRequest::DropFile { file_id: a },
                MasterRequest::DropFile { file_id: b },
            ) => *a == *b,
            _ => false,
        }
    }
}

impl vstd::std_specs::cmp::PartialEqSpecImpl for MasterRequest {
    open spec fn obeys_eq_spec() -> bool {
        true
    }

    open spec fn eq_spec(&self, other: &Self) -> bool {
        self@ == other@
    }
}

/// A response sent by the receiving side ("slave") back to the sender;
/// exactly one per request, in request order.
#[derive(Debug, Clone, Copy, PartialEq, Eq, Structural)]
pub enum SlaveResponse {
    /// Answer to `Ping`.
    Pong,
    /// The request was carried out.
    Okay,
    /// The request named a `file_id` with no open transfer.
    FileIdNotFound { file_id: u8 },
    /// The reassembled file could not be persisted.
    CannotSaveFile { file_id: u8 },
    /// The digest of the reassembled content differs from the declared one.
    ChecksumNotMatched { file_id: u8 },
}

/// Two big-endian bytes for a value below 2^16.
pub open spec fn u16_be_seq(n: int) -> Seq<u8> {
    seq![(n / 256) as u8, (n % 256) as u8]
}

/// Four big-endian bytes of a `u32`.
pub open spec fn u32_be_seq(n: u32) -> Seq<u8> {
    seq![
        ((n >> 24) & 0xff) as u8,
        ((n >> 16) & 0xff) as u8,
        ((n >> 8) & 0xff) as u8,
        (n & 0xff) as u8,
    ]
}

/// The `u32` that four big-endian bytes denote.
pub open spec fn be32(b0: u8, b1: u8, b2: u8, b3: u8) -> u32 {
    ((b0 as u32) << 24) | ((b1 as u32) << 16) | ((b2 as u32) << 8) | (b3 as u32)
}

/// The serialized content of one request.
pub open spec fn request_payload(m: RequestView) -> Seq<u8> {
    match m {
        RequestView::Ping => seq![TAG_PING],
        RequestView::FileFragment { file_id, index, data } => seq![TAG_FILE_FRAGMENT, file_id]
            + u32_be_seq(index) + u16_be_seq(data.len() as int) + data,
        RequestView::FileMetadata { file_id, file_name, sha256 } => seq![
            TAG_FILE_METADATA,
            file_id,
        ] + u16_be_seq(file_name.len() as int) + file_name + u16_be_seq(sha256.len() as int)
            + sha256,
        RequestView::EndOfFile { file_id } => seq![TAG_END_OF_FILE, file_id],
        RequestView::DropFile { file_id } => seq![TAG_DROP_FILE, file_id],
    }
}

/// The serialized content of one response.
pub open spec fn response_payload(r: SlaveResponse) -> Seq<u8> {
    match r {
        SlaveResponse::Pong => seq![TAG_PONG],
        SlaveResponse::Okay => seq![TAG_OK],
        SlaveResponse::FileIdNotFound { file_id } => seq![TAG_FILE_ID_NOT_FOUND, file_id],
        SlaveResponse::CannotSaveFile { file_id } => seq![TAG_CANNOT_SAVE_FILE, file_id],
        SlaveResponse::ChecksumNotMatched { file_id } => seq![TAG_CHECKSUM_NOT_MATCHED, file_id],
    }
}

/// The request that a frame's content denotes, if any.
pub open spec fn parse_request(p: Seq<u8>) -> Option<RequestView> {
    if p.len() < 1 {
        None
    } else if p[0] == TAG_PING {
        if p.len() == 1 {
            Some(RequestView::Ping)
        } else {
            None
        }
    } else if p[0] == TAG_FILE_FRAGMENT {
        if p.len() < 8 {
            None
        } else if p.len() == 8 + be16(p[6], p[7]) {
            Some(
                RequestView::FileFragment {
                    file_id: p[1],
                    index: be32(p[2], p[3], p[4], p[5]),
                    data: p.skip(8),
                },
            )
        } else {
            None
        }
    } else if p[0] == TAG_FILE_METADATA {
        if p.len() < 4 {
            None
        } else {
            let nlen = be16(p[2], p[3]);
            if p.len() < 6 + nlen {
                None
            } else if p.len() == 6 + nlen + be16(p[4 + nlen], p[5 + nlen]) {
                Some(
                    RequestView::FileMetadata {
                        file_id: p[1],
                        file_name: p.subrange(4, 4 + nlen),
                        sha256: p.skip(6 + nlen),
                    },
                )
            } else {
                None
            }
        }
    } else if p[0] == TAG_END_OF_FILE {
        if p.len() == 2 {
            Some(RequestView::EndOfFile { file_id: p[1] })
        } else {
            None
        }
    } else if p[0] == TAG_DROP_FILE {
        if p.len() == 2 {
            Some(RequestView::DropFile { file_id: p[1] })
        } else {
            None
        }
    } else {
        None
    }
}

/// The response that a frame's content denotes, if any.
pub open spec fn parse_response(p: Seq<u8>) -> Option<SlaveResponse> {
    if p.len() < 1 {
        None
    } else if p[0] == TAG_PONG {
        if p.len() == 1 {
            Some(SlaveResponse::Pong)
        } else {
            None
        }
    } else if p[0] == TAG_OK {
        if p.len() == 1 {
            Some(SlaveResponse::Okay)
        } else {
            None
        }
    } else if p[0] == TAG_FILE_ID_NOT_FOUND {
        if p.len() == 2 {
            Some(SlaveResponse::FileIdNotFound { file_id: p[1] })
        } else {
            None
        }
    } else if p[0] == TAG_CANNOT_SAVE_FILE {
        if p.len() == 2 {
            Some(SlaveResponse::CannotSaveFile { file_id: p[1] })
        } else {
            None
        }
    } else if p[0] == TAG_CHECKSUM_NOT_MATCHED {
        if p.len() == 2 {
            Some(SlaveResponse::ChecksumNotMatched { file_id: p[1] })
        } else {
            None
        }
    } else {
        None
    }
}

/// The whole frame that carries a given content: the two-byte total length,
/// which counts itself, then the content.
pub open spec fn frame_of(payload: Seq<u8>) -> Seq<u8> {
    u16_be_seq(payload.len() + 2int) + payload
}

/// The total length that the first two bytes of a buffer declare.
pub open spec fn frame_total(s: Seq<u8>) -> int {
    be16(s[0], s[1])
}

/// Frame round-trip: every request whose serialized content fits in a frame
/// is read back unchanged from its own serialization.
pub proof fn lemma_request_round_trip(m: RequestView)
    requires
        request_payload(m).len() <= MAX_CONTENT_SIZE,
    ensures
        parse_request(request_payload(m)) == Some(m),
{
    let p = request_payload(m);
    match m {
        RequestView::Ping => {
            assert(p =~= seq![TAG_PING]);
        },
        RequestView::FileFragment { file_id, index, data } => {
            let n = data.len() as int;
            assert(p.len() == 8 + n);
            assert(n < 65536);
            assert(p[0] == TAG_FILE_FRAGMENT);
            assert(p[1] == file_id);
            assert(p[2] == ((index >> 24) & 0xff) as u8);
            assert(p[3] == ((index >> 16) & 0xff) as u8);
            assert(p[4] == ((index >> 8) & 0xff) as u8);
            assert(p[5] == (index & 0xff) as u8);
            assert(p[6] == (n / 256) as u8);
            assert(p[7] == (n % 256) as u8);
            assert(0 <= n / 256 < 256);
            assert(be16(p[6], p[7]) == (n / 256) * 256 + n % 256);
            assert((n / 256) * 256 + n % 256 == n) by {
                vstd::arithmetic::div_mod::lemma_fundamental_div_mod(n, 256);
            }
            assert(be32(p[2], p[3], p[4], p[5]) == index) by {
                assert((((((index >> 24) & 0xff) as u8) as u32) << 24) | (((((index >> 16)
                    & 0xff) as u8) as u32) << 16) | (((((index >> 8) & 0xff) as u8) as u32) << 8)
                    | (((index & 0xff) as u8) as u32) == index) by (bit_vector);
            }
            assert(p.skip(8) =~= data);
        },
        RequestView::FileMetadata { file_id, file_name, sha256 } => {
            let n = file_name.len() as int;
            let h = sha256.len() as int;
            assert(p.len() == 6 + n + h);
            assert(n < 65536 && h < 65536);
            assert(p[0] == TAG_FILE_METADATA);
            assert(p[1] == file_id);
            assert(p[2] == (n / 256) as u8);
            assert(p[3] == (n % 256) as u8);
            assert(0 <= n / 256 < 256);
            assert(be16(p[2], p[3]) == (n / 256) * 256 + n % 256);
            assert((n / 256) * 256 + n % 256 == n) by {
                vstd::arithmetic::div_mod::lemma_fundamental_div_mod(n, 256);
            }
            assert(p[4 + n] == (h / 256) as u8);
            assert(p[5 + n] == (h % 256) as u8);
            assert(0 <= h / 256 < 256);
            assert(be16(p[4 + n], p[5 + n]) == (h / 256) * 256 + h % 256);
            assert((h / 256) * 256 + h % 256 == h) by {
                vstd::arithmetic::div_mod::lemma_fundamental_div_mod(h, 256);
            }
            assert(p.subrange(4, 4 + n) =~= file_name);
            assert(p.skip(6 + n) =~= sha256);
        },
        RequestView::EndOfFile { file_id } => {
            assert(p =~= seq![TAG_END_OF_FILE, file_id]);
        },
        RequestView::DropFile { file_id } => {
            assert(p =~= seq![TAG_DROP_FILE, file_id]);
        },
    }
}

/// Frame round-trip for responses.
pub proof fn lemma_response_round_trip(m: SlaveResponse)
    ensures
        parse_response(response_payload(m)) == Some(m),
{
}

/// Frame round-trip on the wire: with the frame of any fitting request at
/// the front of a buffer, the decoder's contract yields exactly that
/// request and leaves exactly the trailing bytes.
pub proof fn lemma_request_frame_round_trip(m: RequestView, rest: Seq<u8>)
    requires
        request_payload(m).len() <= MAX_CONTENT_SIZE,
    ensures
        ({
            let s = frame_of(request_payload(m)) + rest;
            &&& s.len() >= 2
            &&& frame_total(s) == request_payload(m).len() + 2
            &&& parse_request(s.subrange(2, frame_total(s))) == Some(m)
            &&& s.skip(frame_total(s)) == rest
        }),
{
    lemma_request_round_trip(m);
    lemma_frame_then_rest(request_payload(m), rest);
}

/// Frame round-trip on the wire for responses.
pub proof fn lemma_response_frame_round_trip(m: SlaveResponse, rest: Seq<u8>)
    ensures
        ({
            let s = frame_of(response_payload(m)) + rest;
            &&& s.len() >= 2
            &&& frame_total(s) == response_payload(m).len() + 2
            &&& parse_response(s.subrange(2, frame_total(s))) == Some(m)
            &&& s.skip(frame_total(s)) == rest
        }),
{
    lemma_response_round_trip(m);
    lemma_frame_then_rest(response_payload(m), rest);
}

/// A frame's first two bytes declare exactly the frame's own length.
pub proof fn lemma_frame_shape(payload: Seq<u8>)
    requires
        payload.len() <= MAX_CONTENT_SIZE,
    ensures
        frame_of(payload).len() == payload.len() + 2,
        frame_total(frame_of(payload)) == payload.len() + 2,
        frame_of(payload).subrange(2, payload.len() + 2 as int) == payload,
{
    let total = payload.len() + 2 as int;
    assert(0 <= total / 256 < 256);
    assert((total / 256) * 256 + total % 256 == total) by {
        vstd::arithmetic::div_mod::lemma_fundamental_div_mod(total as int, 256);
    }
    assert(frame_of(payload).subrange(2, total as int) =~= payload);
}

/// Partial-frame resilience, the waiting half: any strict prefix of a frame
/// is either shorter than the length prefix itself or shorter than the total
/// it declares, so the decoder leaves it untouched and reports no message.
pub proof fn lemma_partial_frame(payload: Seq<u8>, k: int)
    requires
        payload.len() <= MAX_CONTENT_SIZE,
        0 <= k < frame_of(payload).len(),
    ensures
        ({
            let pre = frame_of(payload).subrange(0, k);
            pre.len() < 2 || frame_total(pre) > pre.len()
        }),
{
    lemma_frame_shape(payload);
    let pre = frame_of(payload).subrange(0, k);
    if k >= 2 {
        assert(pre[0] == frame_of(payload)[0]);
        assert(pre[1] == frame_of(payload)[1]);
        assert(frame_total(pre) == payload.len() + 2);
    }
}

/// Partial-frame resilience, the consuming half: when a whole frame stands
/// at the front of the buffer, the declared total covers exactly that frame,
/// the content between the prefix and the total is the frame's own, and what
/// follows is untouched for the next call.
pub proof fn lemma_frame_then_rest(payload: Seq<u8>, rest: Seq<u8>)
    requires
        payload.len() <= MAX_CONTENT_SIZE,
    ensures
        ({
            let s = frame_of(payload) + rest;
            &&& s.len() == payload.len() + 2 + rest.len()
            &&& frame_total(s) == payload.len() + 2
            &&& s.subrange(2, payload.len() + 2 as int) == payload
            &&& s.skip(payload.len() + 2 as int) == rest
        }),
{
    lemma_frame_shape(payload);
    let s = frame_of(payload) + rest;
    assert(s[0] == frame_of(payload)[0]);
    assert(s[1] == frame_of(payload)[1]);
    assert(s.subrange(2, payload.len() + 2 as int) =~= payload);
    assert(s.skip(payload.len() + 2 as int) =~= rest);
}

/// Appends a value below 2^16 as two big-endian bytes.
fn push_u16_be(dst: &mut Vec<u8>, value: u16)
    ensures
        final(dst)@ == old(dst)@ + u16_be_seq(value as int),
{
    let b: [u8; 2] = u16_to_u8_array(value);
    dst.push(b[0]);
    dst.push(b[1]);
    proof {
        assert(0 <= value as int / 256 < 256);
        assert(dst@ =~= old(dst)@ + u16_be_seq(value as int));
    }
}

/// Appends a `u32` as four big-endian bytes.
fn push_u32_be(dst: &mut Vec<u8>, value: u32)
    ensures
        final(dst)@ == old(dst)@ + u32_be_seq(value),
{
    dst.push(((value >> 24) & 0xff) as u8);
    dst.push(((value >> 16) & 0xff) as u8);
    dst.push(((value >> 8) & 0xff) as u8);
    dst.push((value & 0xff) as u8);
    proof {
        assert(dst@ =~= old(dst)@ + u32_be_seq(value));
    }
}

/// Appends all bytes of `src` to `dst`.
pub(crate) fn push_bytes(dst: &mut Vec<u8>, src: &Vec<u8>)
    ensures
        final(dst)@ == old(dst)@ + src@,
{
    let mut i: usize = 0;
    while i < src.len()
        invariant
            i <= src.len(),
            dst@ == old(dst)@ + src@.take(i as int),
        decreases src.len() - i,
    {
        dst.push(src[i]);
        i = i + 1;
        proof {
            assert(src@.take(i as int) =~= src@.take(i - 1).push(src@[i - 1]));
            assert(dst@ =~= old(dst)@ + src@.take(i as int));
        }
    }
    proof {
        assert(src@.take(src.len() as int) =~= src@);
    }
}

/// Serializes one request, or reports that it cannot fit in a frame.
fn encode_request_payload(item: MasterRequest) -> (r: Result<Vec<u8>, Error>)
    ensures
        request_payload(item@).len() <= MAX_CONTENT_SIZE ==> (r matches Ok(p) && p@
            == request_payload(item@)),
        request_payload(item@).len() > MAX_CONTENT_SIZE ==> r == Err::<Vec<u8>, Error>(
            Error::DataTooLarge,
        ),
{
    let ghost v = item@;
    match item {
        MasterRequest::Ping => {
            let mut p: Vec<u8> = Vec::new();
            p.push(TAG_PING);
            proof {
                assert(p@ =~= request_payload(v));
            }
            Ok(p)
        },
        MasterRequest::FileFragment { file_id, index, data } => {
            if data.len() > MAX_CONTENT_SIZE - 8 {
                return Err(Error::DataTooLarge);
            }
            let mut p: Vec<u8> = Vec::new();
            p.push(TAG_FILE_FRAGMENT);
            p.push(file_id);
            push_u32_be(&mut p, index);
            push_u16_be(&mut p, data.len() as u16);
            push_bytes(&mut p, &data);
            proof {
                assert(p@ =~= request_payload(v));
            }
            Ok(p)
        },
        MasterRequest::FileMetadata { file_id, file_name, sha256 } => {
            if file_name.len() > MAX_CONTENT_SIZE - 6 {
                return Err(Error::DataTooLarge);
            }
            if sha256.len() > MAX_CONTENT_SIZE - 6 - file_name.len() {
                return Err(Error::DataTooLarge);
            }
            let mut p: Vec<u8> = Vec::new();
            p.push(TAG_FILE_METADATA);
            p.push(file_id);
            push_u16_be(&mut p, file_name.len() as u16);
            push_bytes(&mut p, &file_name);
            push_u16_be(&mut p, sha256.len() as u16);
            push_bytes(&mut p, &sha256);
            proof {
                assert(p@ =~= request_payload(v));
            }
            Ok(p)
        },
        MasterRequest::EndOfFile { file_id } => {
            let mut p: Vec<u8> = Vec::new();
            p.push(TAG_END_OF_FILE);
            p.push(file_id);
            proof {
                assert(p@ =~= request_payload(v));
            }
            Ok(p)
        },
        MasterRequest::DropFile { file_id } => {
            let mut p: Vec<u8> = Vec::new();
            p.push(TAG_DROP_FILE);
            p.push(file_id);
            proof {
                assert(p@ =~= request_payload(v));
            }
            Ok(p)
        },
    }
}

/// Serializes one response; every response fits in a frame.
fn encode_response_payload(item: SlaveResponse) -> (p: Vec<u8>)
    ensures
        p@ == response_payload(item),
        p@.len() <= 2,
{
    let ghost v = item;
    let mut p: Vec<u8> = Vec::new();
    match item {
        SlaveResponse::Pong => {
            p.push(TAG_PONG);
        },
        SlaveResponse::Okay => {
            p.push(TAG_OK);
        },
        SlaveResponse::FileIdNotFound { file_id } => {
            p.push(TAG_FILE_ID_NOT_FOUND);
            p.push(file_id);
        },
        SlaveResponse::CannotSaveFile { file_id } => {
            p.push(TAG_CANNOT_SAVE_FILE);
            p.push(file_id);
        },
        SlaveResponse::ChecksumNotMatched { file_id } => {
            p.push(TAG_CHECKSUM_NOT_MATCHED);
            p.push(file_id);
        },
    }
    proof {
        assert(p@ =~= response_payload(v));
    }
    p
}

/// Reads one request back from a frame's content.
fn parse_request_bytes(p: &Vec<u8>) -> (r: Option<MasterRequest>)
    ensures
        r is Some <==> parse_request(p@) is Some,
        r matches Some(m) ==> parse_request(p@) == Some(m@),
{
    if p.len() < 1 {
        return None;
    }
    let tag = p[0];
    if tag == TAG_PING {
        if p.len() == 1 {
            Some(MasterRequest::Ping)
        } else {
            None
        }
    } else if tag == TAG_FILE_FRAGMENT {
        if p.len() < 8 {
            return None;
        }
        let dlen = u8_array_to_u16([p[6], p[7]]) as usize;
        if p.len() != 8 + dlen {
            return None;
        }
        let index = ((p[2] as u32) << 24) | ((p[3] as u32) << 16) | ((p[4] as u32) << 8) | (
        p[5] as u32);
        let mut data: Vec<u8> = Vec::new();
        let mut i: usize = 8;
        while i < p.len()
            invariant
                8 <= i <= p@.len(),
                data@ == p@.subrange(8, i as int),
            decreases p@.len() - i,
        {
            data.push(p[i]);
            i = i + 1;
            proof {
                assert(data@ =~= p@.subrange(8, i as int));
            }
        }
        proof {
            assert(data@ =~= p@.skip(8));
        }
        Some(MasterRequest::FileFragment { file_id: p[1], index, data })
    } else if tag == TAG_FILE_METADATA {
        if p.len() < 4 {
            return None;
        }
        let nlen = u8_array_to_u16([p[2], p[3]]) as usize;
        if p.len() < 6 + nlen {
            return None;
        }
        let hlen = u8_array_to_u16([p[4 + nlen], p[5 + nlen]]) as usize;
        if p.len() != 6 + nlen + hlen {
            return None;
        }
        let mut file_name: Vec<u8> = Vec::new();
        let mut i: usize = 4;
        while i < 4 + nlen
            invariant
                nlen <= 0xffff,
                4 <= i <= 4 + nlen,
                6 + nlen <= p@.len(),
                file_name@ == p@.subrange(4, i as int),
            decreases 4 + nlen - i,
        {
            file_name.push(p[i]);
            i = i + 1;
            proof {
                assert(file_name@ =~= p@.subrange(4, i as int));
            }
        }
        let mut sha256: Vec<u8> = Vec::new();
        let mut j: usize = 6 + nlen;
        while j < p.len()
            invariant
                nlen <= 0xffff,
                6 + nlen <= j <= p@.len(),
                sha256@ == p@.subrange(6 + nlen as int, j as int),
            decreases p@.len() - j,
        {
            sha256.push(p[j]);
            j = j + 1;
            proof {
                assert(sha256@ =~= p@.subrange(6 + nlen as int, j as int));
            }
        }
        proof {
            assert(file_name@ =~= p@.subrange(4, 4 + be16(p@[2], p@[3])));
            assert(sha256@ =~= p@.skip(6 + be16(p@[2], p@[3])));
        }
        Some(MasterRequest::FileMetadata { file_id: p[1], file_name, sha256 })
    } else if tag == TAG_END_OF_FILE {
        if p.len() == 2 {
            Some(MasterRequest::EndOfFile { file_id: p[1] })
        } else {
            None
        }
    } else if tag == TAG_DROP_FILE {
        if p.len() == 2 {
            Some(MasterRequest::DropFile { file_id: p[1] })
        } else {
            None
        }
    } else {
        None
    }
}

/// Reads one response back from a frame's content.
fn parse_response_bytes(p: &Vec<u8>) -> (r: Option<SlaveResponse>)
    ensures
        parse_response(p@) == r,
{
    if p.len() < 1 {
        return None;
    }
    let tag = p[0];
    if tag == TAG_PONG {
        if p.len() == 1 {
            Some(SlaveResponse::Pong)
        } else {
            None
        }
    } else if tag == TAG_OK {
        if p.len() == 1 {
            Some(SlaveResponse::Okay)
        } else {
            None
        }
    } else if tag == TAG_FILE_ID_NOT_FOUND {
        if p.len() == 2 {
            Some(SlaveResponse::FileIdNotFound { file_id: p[1] })
        } else {
            None
        }
    } else if tag == TAG_CANNOT_SAVE_FILE {
        if p.len() == 2 {
            Some(SlaveResponse::CannotSaveFile { file_id: p[1] })
        } else {
            None
        }
    } else if tag == TAG_CHECKSUM_NOT_MATCHED {
        if p.len() == 2 {
            Some(SlaveResponse::ChecksumNotMatched { file_id: p[1] })
        } else {
            None
        }
    } else {
        None
    }
}

/// How many more bytes the decoder needs before the buffered frame is
/// complete, so the transport can size its next read.
pub fn bytes_needed(src: &Vec<u8>) -> (r: Option<usize>)
    ensures
        match r {
            Some(n) => src@.len() >= 2 && n == frame_total(src@) - src@.len() && n > 0,
            None => src@.len() < 2 || frame_total(src@) <= src@.len(),
        },
{
    if src.len() < 2 {
        return None;
    }
    let total = u8_array_to_u16([src[0], src[1]]) as usize;
    if src.len() < total {
        Some(total - src.len())
    } else {
        None
    }
}

/// Encodes requests into frames and decodes frames back into requests.
#[derive(Debug)]
pub struct RequestCodec;

/// Encodes responses into frames and decodes frames back into responses.
#[derive(Debug)]
pub struct ResponseCodec;

impl RequestCodec {
    /// Appends the frame that carries `item` to `dst`, or fails with
    /// [`Error::DataTooLarge`] when the serialized message exceeds
    /// [`MAX_CONTENT_SIZE`], leaving `dst` unchanged.
    pub fn encode(&mut self, item: MasterRequest, dst: &mut Vec<u8>) -> (r: Result<(), Error>)
        ensures
            request_payload(item@).len() <= MAX_CONTENT_SIZE ==> r == Ok::<(), Error>(())
                && final(dst)@ == old(dst)@ + frame_of(request_payload(item@)),
            request_payload(item@).len() > MAX_CONTENT_SIZE ==> r == Err::<(), Error>(
                Error::DataTooLarge,
            ) && final(dst)@ == old(dst)@,
    {
        let ghost v = item@;
        let payload: Vec<u8> = match encode_request_payload(item) {
            Ok(p) => p,
            Err(e) => {
                return Err(e);
            },
        };
        push_u16_be(dst, (payload.len() + 2) as u16);
        push_bytes(dst, &payload);
        proof {
            assert(dst@ =~= old(dst)@ + frame_of(request_payload(v)));
        }
        Ok(())
    }

    /// Takes one complete frame off the front of `src` and returns its
    /// request; returns `None` when fewer bytes than one whole frame are
    /// buffered, leaving them for the next call.
    pub fn decode(&mut self, src: &mut Vec<u8>) -> (r: Result<Option<MasterRequest>, Error>)
        ensures
            old(src)@.len() < 2 ==> r == Ok::<Option<MasterRequest>, Error>(None) && final(src)@
                == old(src)@,
            old(src)@.len() >= 2 ==> {
                let total = frame_total(old(src)@);
                &&& (total < 2 ==> r == Err::<Option<MasterRequest>, Error>(Error::Malformed)
                    && final(src)@ == old(src)@)
                &&& (total >= 2 && old(src)@.len() < total ==> r == Ok::<
                    Option<MasterRequest>,
                    Error,
                >(None) && final(src)@ == old(src)@)
                &&& (total >= 2 && old(src)@.len() >= total ==> {
                    &&& final(src)@ == old(src)@.skip(total)
                    &&& (match parse_request(old(src)@.subrange(2, total)) {
                        Some(v) => r matches Ok(Some(m)) && m@ == v,
                        None => r == Err::<Option<MasterRequest>, Error>(Error::Malformed),
                    })
                })
            },
    {
        if src.len() < 2 {
            return Ok(None);
        }
        let total = u8_array_to_u16([src[0], src[1]]) as usize;
        if total < 2 {
            return Err(Error::Malformed);
        }
        if src.len() < total {
            return Ok(None);
        }
        let mut payload: Vec<u8> = Vec::new();
        let mut i: usize = 2;
        while i < total
            invariant
                2 <= i <= total <= src@.len(),
                src@ == old(src)@,
                payload@ == src@.subrange(2, i as int),
            decreases total - i,
        {
            payload.push(src[i]);
            i = i + 1;
            proof {
                assert(payload@ =~= src@.subrange(2, i as int));
            }
        }
        let mut rest: Vec<u8> = Vec::new();
        let mut j: usize = total;
        while j < src.len()
            invariant
                total <= j <= src@.len(),
                src@ == old(src)@,
                rest@ == src@.subrange(total as int, j as int),
            decreases src@.len() - j,
        {
            rest.push(src[j]);
            j = j + 1;
            proof {
                assert(rest@ =~= src@.subrange(total as int, j as int));
            }
        }
        proof {
            assert(rest@ =~= old(src)@.skip(total as int));
        }
        *src = rest;
        match parse_request_bytes(&payload) {
            Some(m) => Ok(Some(m)),
            None => Err(Error::Malformed),
        }
    }
}

impl ResponseCodec {
    /// Appends the frame that carries `item` to `dst`; every response fits.
    pub fn encode(&mut self, item: SlaveResponse, dst: &mut Vec<u8>) -> (r: Result<(), Error>)
        ensures
            r == Ok::<(), Error>(()),
            final(dst)@ == old(dst)@ + frame_of(response_payload(item)),
    {
        let payload: Vec<u8> = encode_response_payload(item);
        push_u16_be(dst, (payload.len() + 2) as u16);
        push_bytes(dst, &payload);
        proof {
            assert(dst@ =~= old(dst)@ + frame_of(response_payload(item)));
        }
        Ok(())
    }

    /// Takes one complete frame off the front of `src` and returns its
    /// response; returns `None` when fewer bytes than one whole frame are
    /// buffered, leaving them for the next call.
    pub fn decode(&mut self, src: &mut Vec<u8>) -> (r: Result<Option<SlaveResponse>, Error>)
        ensures
            old(src)@.len() < 2 ==> r == Ok::<Option<SlaveResponse>, Error>(None) && final(src)@
                == old(src)@,
            old(src)@.len() >= 2 ==> {
                let total = frame_total(old(src)@);
                &&& (total < 2 ==> r == Err::<Option<SlaveResponse>, Error>(Error::Malformed)
                    && final(src)@ == old(src)@)
                &&& (total >= 2 && old(src)@.len() < total ==> r == Ok::<
                    Option<SlaveResponse>,
                    Error,
                >(None) && final(src)@ == old(src)@)
                &&& (total >= 2 && old(src)@.len() >= total ==> {
                    &&& final(src)@ == old(src)@.skip(total)
                    &&& (match parse_response(old(src)@.subrange(2, total)) {
                        Some(v) => r == Ok::<Option<SlaveResponse>, Error>(Some(v)),
                        None => r == Err::<Option<SlaveResponse>, Error>(Error::Malformed),
                    })
                })
            },
    {
        if src.len() < 2 {
            return Ok(None);
        }
        let total = u8_array_to_u16([src[0], src[1]]) as usize;
        if total < 2 {
            return Err(Error::Malformed);
        }
        if src.len() < total {
            return Ok(None);
        }
        let mut payload: Vec<u8> = Vec::new();
        let mut i: usize = 2;
        while i < total
            invariant
                2 <= i <= total <= src@.len(),
                src@ == old(src)@,
                payload@ == src@.subrange(2, i as int),
            decreases total - i,
        {
            payload.push(src[i]);
            i = i + 1;
            proof {
                assert(payload@ =~= src@.subrange(2, i as int));
            }
        }
        let mut rest: Vec<u8> = Vec::new();
        let mut j: usize = total;
        while j < src.len()
            invariant
                total <= j <= src@.len(),
                src@ == old(src)@,
                rest@ == src@.subrange(total as int, j as int),
            decreases src@.len() - j,
        {
            rest.push(src[j]);
            j = j + 1;
            proof {
                assert(rest@ =~= src@.subrange(total as int, j as int));
            }
        }
        proof {
            assert(rest@ =~= old(src)@.skip(total as int));
        }
        *src = rest;
        match parse_response_bytes(&payload) {
            Some(m) => Ok(Some(m)),
            None => Err(Error::Malformed),
        }
    }
}

} // verus!
