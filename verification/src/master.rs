//! The sending side ("master"): fragment planning and transfer control.
//!
//! The caller owns the socket, the file and the control channel; the
//! functions here decide everything else. [`file_id_from_hash`] derives the
//! transfer identifier from the content digest, [`build_fragments`] cuts the
//! file into indexed fragments, [`plan_transfer`] lays out the whole request
//! sequence of an undisturbed transfer, and [`next_send_step`] decides, one
//! fragment boundary at a time, whether to send, back off, or abort.

use vstd::prelude::*;

use crate::codec::{MasterRequest, RequestView, MAX_FILE_FARGMENT_SIZE};
use crate::slave::{
    concat_data, distinct_indices, frags_sorted, lemma_sort_frags_ensures, reassembled,
    FragmentView,
};

verus! {

/// The externally driven state of one sending task.
#[derive(Debug, Clone, Copy, PartialEq, Eq, Structural)]
pub enum TaskStatus {
    Running,
    Paused,
    Aborted,
}

/// What one non-blocking poll of the control channel yielded.
#[derive(Debug, Clone, Copy, PartialEq, Eq, Structural)]
pub enum ControlEvent {
    /// A new status was received.
    Received(TaskStatus),
    /// No new status is pending; the task keeps its current one.
    Empty,
    /// No controller remains; the task must not keep running unattended.
    Disconnected,
}

/// What the sending loop does before the next fragment.
#[derive(Debug, Clone, Copy, PartialEq, Eq, Structural)]
pub enum SendStep {
    /// Read and send the next fragment; the cursor advances.
    SendFragment,
    /// Sleep a fixed backoff and poll again; the cursor does not move.
    Backoff,
    /// Send `DropFile` and stop cleanly.
    AbortTransfer,
}

/// Decides the sending task's next move from its current status and one
/// poll of the control channel. A received status replaces the current one;
/// a disconnected controller aborts the transfer whatever the status, so a
/// crashed controller cannot leave a transfer running forever.
pub fn next_send_step(status: TaskStatus, event: ControlEvent) -> (r: (TaskStatus, SendStep))
    ensures
        r.0 == match event {
            ControlEvent::Received(s) => s,
            _ => status,
        },
        r.1 == match event {
            ControlEvent::Disconnected => SendStep::AbortTransfer,
            _ => match r.0 {
                TaskStatus::Running => SendStep::SendFragment,
                TaskStatus::Paused => SendStep::Backoff,
                TaskStatus::Aborted => SendStep::AbortTransfer,
            },
        },
{
    let status = match event {
        ControlEvent::Received(s) => s,
        ControlEvent::Empty => status,
        ControlEvent::Disconnected => {
            return (status, SendStep::AbortTransfer);
        },
    };
    let step = match status {
        TaskStatus::Running => SendStep::SendFragment,
        TaskStatus::Paused => SendStep::Backoff,
        TaskStatus::Aborted => SendStep::AbortTransfer,
    };
    (status, step)
}

/// The value of one ASCII hex digit, or -1 for any other byte.
pub open spec fn hex_digit_value(c: u8) -> int {
    if 48 <= c <= 57 {
        c - 48
    } else if 97 <= c <= 102 {
        c - 97 + 10
    } else if 65 <= c <= 70 {
        c - 65 + 10
    } else {
        -1
    }
}

/// The transfer identifier that a hex digest denotes: the byte its first
/// two hex characters spell, or 255 when they spell none.
pub open spec fn spec_file_id(hash: Seq<u8>) -> u8 {
    if hash.len() >= 2 && hex_digit_value(hash[0]) >= 0 && hex_digit_value(hash[1]) >= 0 {
        (hex_digit_value(hash[0]) * 16 + hex_digit_value(hash[1])) as u8
    } else {
        255
    }
}

/// The value of one ASCII hex digit.
fn hex_digit(c: u8) -> (r: Option<u8>)
    ensures
        hex_digit_value(c) >= 0 ==> r == Some(hex_digit_value(c) as u8),
        hex_digit_value(c) < 0 ==> r == None::<u8>,
{
    if 48 <= c && c <= 57 {
        Some(c - 48)
    } else if 97 <= c && c <= 102 {
        Some(c - 97 + 10)
    } else if 65 <= c && c <= 70 {
        Some(c - 65 + 10)
    } else {
        None
    }
}

/// Derives the transfer identifier from the leading byte of the content
/// digest: its first two hex characters, read as one byte; 255 when the
/// digest does not start with two hex characters.
pub fn file_id_from_hash(hash: &Vec<u8>) -> (r: u8)
    ensures
        r == spec_file_id(hash@),
{
    if hash.len() < 2 {
        return 255;
    }
    let hi = hex_digit(hash[0]);
    let lo = hex_digit(hash[1]);
    match (hi, lo) {
        (Some(h), Some(l)) => h * 16 + l,
        _ => 255,
    }
}

/// The fragment capacity as a mathematical number.
pub open spec fn frag_cap() -> int {
    MAX_FILE_FARGMENT_SIZE as int
}

/// How many fragments a file of `len` bytes takes: `len / 1477`, rounded
/// up. A zero-byte file takes none.
pub open spec fn fragment_count(len: int) -> int {
    (len + frag_cap() - 1) / frag_cap()
}

/// The bytes of the `i`-th fragment: the `i`-th slice of up to 1477 bytes
/// of the content, in file order.
pub open spec fn fragment_data(content: Seq<u8>, i: int) -> Seq<u8> {
    content.subrange(
        i * frag_cap(),
        if (i + 1) * frag_cap() <= content.len() {
            (i + 1) * frag_cap()
        } else {
            content.len() as int
        },
    )
}

/// Cuts a file's content into `FileFragment` requests of at most 1477
/// bytes each, in strict file order, with zero-based, strictly incrementing
/// indexes.
pub fn build_fragments(file_id: u8, content: &Vec<u8>) -> (r: Vec<MasterRequest>)
    requires
        content@.len() <= frag_cap() * 0xffff_ffff,
    ensures
        r@.len() == fragment_count(content@.len() as int),
        forall|i: int|
            0 <= i < r@.len() ==> r@[i]@ == (RequestView::FileFragment {
                file_id,
                index: i as u32,
                data: fragment_data(content@, i),
            }),
{
    let len = content.len();
    let mut r: Vec<MasterRequest> = Vec::new();
    let mut offset: usize = 0;
    let mut index: u32 = 0;
    while offset < len
        invariant
            len == content@.len(),
            content@.len() <= frag_cap() * 0xffff_ffff,
            offset == index * frag_cap() || (offset == len && len <= index * frag_cap()),
            index > 0 ==> (index - 1) * frag_cap() < len,
            offset <= len,
            r@.len() == index as int,
            forall|i: int|
                0 <= i < r@.len() ==> r@[i]@ == (RequestView::FileFragment {
                    file_id,
                    index: i as u32,
                    data: fragment_data(content@, i),
                }),
        decreases len - offset,
    {
        proof {
            assert(offset == index * frag_cap());
            assert(index < 0xffff_ffff) by (nonlinear_arith)
                requires
                    offset == index * frag_cap(),
                    offset < len,
                    len <= frag_cap() * 0xffff_ffff,
                    frag_cap() == 1477,
            ;
        }
        let remaining = len - offset;
        let end = if remaining > MAX_FILE_FARGMENT_SIZE {
            offset + MAX_FILE_FARGMENT_SIZE
        } else {
            len
        };
        proof {
            assert((index + 1) * frag_cap() == index * frag_cap() + frag_cap()) by (
            nonlinear_arith);
            assert(end == if (index + 1) * frag_cap() <= content@.len() {
                (index + 1) * frag_cap()
            } else {
                content@.len() as int
            });
        }
        let mut chunk: Vec<u8> = Vec::new();
        let mut j: usize = offset;
        while j < end
            invariant
                offset <= j <= end <= content@.len(),
                chunk@ == content@.subrange(offset as int, j as int),
            decreases end - j,
        {
            chunk.push(content[j]);
            j = j + 1;
            proof {
                assert(chunk@ =~= content@.subrange(offset as int, j as int));
            }
        }
        proof {
            assert(chunk@ =~= fragment_data(content@, index as int));
        }
        r.push(MasterRequest::FileFragment { file_id, index, data: chunk });
        index = index + 1;
        offset = end;
    }
    proof {
        if len == 0 {
            assert(index * frag_cap() == 0 ==> index == 0) by (nonlinear_arith);
            assert(fragment_count(0) == 0);
        } else {
            // offset landed on or past the end, and the previous fragment
            // began strictly before it, which pins the rounded-up count.
            assert(index >= 1);
            assert((index - 1) * frag_cap() < len as int <= index * frag_cap());
            let n = len as int;
            let q = index as int;
            let rem = n + frag_cap() - 1 - q * frag_cap();
            assert(0 <= rem < frag_cap()) by (nonlinear_arith)
                requires
                    rem == n + frag_cap() - 1 - q * frag_cap(),
                    (q - 1) * frag_cap() < n <= q * frag_cap(),
                    frag_cap() == 1477,
            ;
            vstd::arithmetic::div_mod::lemma_fundamental_div_mod_converse(
                n + frag_cap() - 1,
                frag_cap(),
                q,
                rem,
            );
            assert(fragment_count(n) == q);
        }
    }
    r
}

/// The request sequence of one undisturbed transfer: the metadata that
/// opens it, every fragment in file order, and the end-of-file mark. The
/// transfer identifier is derived from the digest throughout.
pub fn plan_transfer(file_name: Vec<u8>, sha256: Vec<u8>, content: &Vec<u8>) -> (r: Vec<
    MasterRequest,
>)
    requires
        content@.len() <= frag_cap() * 0xffff_ffff,
    ensures
        r@.len() == fragment_count(content@.len() as int) + 2,
        r@[0]@ == (RequestView::FileMetadata {
            file_id: spec_file_id(sha256@),
            file_name: file_name@,
            sha256: sha256@,
        }),
        forall|i: int|
            1 <= i < r@.len() - 1 ==> r@[i]@ == (RequestView::FileFragment {
                file_id: spec_file_id(sha256@),
                index: (i - 1) as u32,
                data: fragment_data(content@, i - 1),
            }),
        r@[r@.len() - 1]@ == (RequestView::EndOfFile { file_id: spec_file_id(sha256@) }),
{
    let file_id = file_id_from_hash(&sha256);
    let mut frags = build_fragments(file_id, content);
    let mut r: Vec<MasterRequest> = Vec::new();
    r.push(MasterRequest::FileMetadata { file_id, file_name, sha256 });
    r.append(&mut frags);
    r.push(MasterRequest::EndOfFile { file_id });
    r
}

/// How the rounded-up fragment count brackets the content length.
proof fn lemma_fragment_count_bounds(len: int)
    requires
        len >= 0,
    ensures
        fragment_count(len) >= 0,
        fragment_count(len) * frag_cap() >= len,
        len > 0 ==> (fragment_count(len) - 1) * frag_cap() < len,
        len == 0 ==> fragment_count(len) == 0,
{
    let q = fragment_count(len);
    vstd::arithmetic::div_mod::lemma_fundamental_div_mod(len + frag_cap() - 1, frag_cap());
    let rem = (len + frag_cap() - 1) % frag_cap();
    assert(len + frag_cap() - 1 == frag_cap() * q + rem);
    vstd::arithmetic::div_mod::lemma_div_is_ordered(0, len + frag_cap() - 1, frag_cap());
}

/// Fragments cut in file order concatenate, from the `i`-th on, to the
/// content from the `i`-th cut on.
proof fn lemma_concat_suffix(content: Seq<u8>, frags: Seq<FragmentView>, i: int)
    requires
        frags.len() == fragment_count(content.len() as int),
        forall|j: int|
            0 <= j < frags.len() ==> frags[j].data == fragment_data(content, j),
        0 <= i <= frags.len(),
    ensures
        i < frags.len() ==> concat_data(frags.skip(i)) == content.skip(i * frag_cap()),
        i == frags.len() ==> concat_data(frags.skip(i)) == Seq::<u8>::empty(),
    decreases frags.len() - i,
{
    let len = content.len() as int;
    lemma_fragment_count_bounds(len);
    if i == frags.len() {
        assert(frags.skip(i) =~= Seq::<FragmentView>::empty());
        assert(concat_data(frags.skip(i)) =~= Seq::<u8>::empty());
    } else {
        let count = frags.len() as int;
        assert(i * frag_cap() <= (count - 1) * frag_cap() && (i + 1) * frag_cap() <= count
            * frag_cap() && (i + 1) * frag_cap() == i * frag_cap() + frag_cap()) by (
        nonlinear_arith)
            requires
                0 <= i < count,
                frag_cap() == 1477,
        ;
        assert(i * frag_cap() < len);
        let s = frags.skip(i);
        assert(s[0] == frags[i]);
        assert(s.drop_first() =~= frags.skip(i + 1));
        assert(concat_data(s) == frags[i].data + concat_data(frags.skip(i + 1)));
        lemma_concat_suffix(content, frags, i + 1);
        assert(frags[i].data == fragment_data(content, i));
        if i + 1 < count {
            assert((i + 1) * frag_cap() <= (count - 1) * frag_cap()) by (nonlinear_arith)
                requires
                    i + 1 < count,
                    frag_cap() == 1477,
            ;
            assert((i + 1) * frag_cap() < len);
            assert(frags[i].data == content.subrange(i * frag_cap(), (i + 1) * frag_cap()));
            assert(content.skip(i * frag_cap()) =~= frags[i].data + content.skip(
                (i + 1) * frag_cap(),
            ));
        } else {
            assert((i + 1) * frag_cap() == count * frag_cap());
            assert((i + 1) * frag_cap() >= len);
            assert(frags[i].data == content.subrange(i * frag_cap(), len));
            assert(content.skip(i * frag_cap()) =~= frags[i].data + Seq::<u8>::empty());
        }
    }
}

/// Fragments cut by the sender in file order carry pairwise distinct,
/// ascending indexes, and the receiver's reassembly restores the content
/// exactly: the sender's cutting and the receiver's reassembly are
/// inverse.
pub proof fn lemma_ordered_fragments_reassemble(content: Seq<u8>, frags: Seq<FragmentView>)
    requires
        content.len() <= frag_cap() * 0xffff_ffff,
        frags.len() == fragment_count(content.len() as int),
        forall|i: int|
            0 <= i < frags.len() ==> frags[i] == (FragmentView {
                index: i as u32,
                data: fragment_data(content, i),
            }),
    ensures
        distinct_indices(frags),
        frags_sorted(frags),
        reassembled(frags) == content,
{
    let len = content.len() as int;
    let count = frags.len() as int;
    lemma_fragment_count_bounds(len);
    if len == 0 {
        assert(count == 0);
    } else {
        assert((count - 1) * 1477 < len);
        assert(count <= 0xffff_ffff) by (nonlinear_arith)
            requires
                (count - 1) * 1477 < len,
                len <= 1477 * 0xffff_ffff,
        ;
    }
    assert forall|i: int, j: int| 0 <= i < j < count implies frags[i].index != frags[j].index
        && frags[i].index <= frags[j].index by {
        assert(frags[i].index == i as u32 && frags[j].index == j as u32);
        assert((i as u32) < (j as u32));
    }
    lemma_sort_frags_ensures(frags);
    crate::slave::lemma_sorted_identity(frags);
    if count > 0 {
        lemma_concat_suffix(content, frags, 0);
        assert(frags.skip(0) =~= frags);
        assert(content.skip(0) =~= content);
    } else {
        assert(frags =~= Seq::<FragmentView>::empty());
        assert(concat_data(frags) =~= Seq::<u8>::empty());
        assert(content =~= Seq::<u8>::empty());
        lemma_concat_suffix(content, frags, 0);
    }
}

} // verus!
