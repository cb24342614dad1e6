//! The receiving side ("slave"): per-file fragment accumulation and
//! reassembly.
//!
//! The engine owns one pool of open transfers keyed by `file_id`. Each
//! request maps to exactly one outcome: either a response to send back, or
//! — after a successful integrity check — the verified content to persist.
//! Sockets and the file system stay with the caller; it hands each decoded
//! request in and carries each outcome out.

use vstd::multiset::Multiset;
use vstd::prelude::*;

use std::collections::HashMap;

use crate::codec::{MasterRequest, RequestView, SlaveResponse};

verus! {

broadcast use vstd::std_specs::hash::group_hash_axioms;

/// One received chunk of a file, tagged with its sequence number.
#[derive(Debug)]
pub struct Fragment {
    pub index: u32,
    pub data: Vec<u8>,
}

/// The mathematical value of a [`Fragment`].
pub struct FragmentView {
    pub index: u32,
    pub data: Seq<u8>,
}

impl View for Fragment {
    type V = FragmentView;

    open spec fn view(&self) -> FragmentView {
        FragmentView { index: self.index, data: self.data@ }
    }
}

/// The views of a sequence of fragments.
pub open spec fn frag_views(s: Seq<Fragment>) -> Seq<FragmentView> {
    s.map_values(|f: Fragment| f@)
}

/// The state of one open transfer: what `FileMetadata` declared, and the
/// fragments in arrival order.
#[derive(Debug)]
pub struct Transfer {
    pub file_name: Vec<u8>,
    pub sha256: Vec<u8>,
    pub fragments: Vec<Fragment>,
}

/// The mathematical value of a [`Transfer`].
pub struct TransferView {
    pub file_name: Seq<u8>,
    pub sha256: Seq<u8>,
    pub fragments: Seq<FragmentView>,
}

impl View for Transfer {
    type V = TransferView;

    open spec fn view(&self) -> TransferView {
        TransferView {
            file_name: self.file_name@,
            sha256: self.sha256@,
            fragments: frag_views(self.fragments@),
        }
    }
}

/// The views of a pool of transfers.
pub open spec fn pool_view(m: Map<u8, Transfer>) -> Map<u8, TransferView> {
    m.map_values(|t: Transfer| t@)
}

/// Whether the fragments stand in ascending index order.
pub open spec fn frags_sorted(s: Seq<FragmentView>) -> bool {
    forall|i: int, j: int| 0 <= i < j < s.len() ==> s[i].index <= s[j].index
}

/// Whether no two fragments carry the same index.
pub open spec fn distinct_indices(s: Seq<FragmentView>) -> bool {
    forall|i: int, j: int| 0 <= i < j < s.len() ==> s[i].index != s[j].index
}

/// Inserts a fragment into an index-sorted sequence, after any fragment
/// with the same index.
pub open spec fn insert_by_index(x: FragmentView, s: Seq<FragmentView>) -> Seq<FragmentView>
    decreases s.len(),
{
    if s.len() == 0 {
        seq![x]
    } else if x.index < s[0].index {
        seq![x] + s
    } else {
        seq![s[0]] + insert_by_index(x, s.drop_first())
    }
}

/// Sorts fragments by index, keeping arrival order among equal indexes.
pub open spec fn sort_frags(s: Seq<FragmentView>) -> Seq<FragmentView>
    decreases s.len(),
{
    if s.len() == 0 {
        Seq::empty()
    } else {
        insert_by_index(s.last(), sort_frags(s.drop_last()))
    }
}

/// The bytes of the fragments, concatenated as they stand.
pub open spec fn concat_data(s: Seq<FragmentView>) -> Seq<u8>
    decreases s.len(),
{
    if s.len() == 0 {
        Seq::empty()
    } else {
        s[0].data + concat_data(s.drop_first())
    }
}

/// The reassembled content of a transfer: fragment data concatenated in
/// ascending index order, not in arrival order.
pub open spec fn reassembled(frags: Seq<FragmentView>) -> Seq<u8> {
    concat_data(sort_frags(frags))
}

/// What inserting a fragment into a sorted sequence does: the result is
/// sorted, one longer, and holds exactly the old fragments plus the new one.
proof fn lemma_insert_by_index_ensures(x: FragmentView, s: Seq<FragmentView>)
    requires
        frags_sorted(s),
    ensures
        frags_sorted(insert_by_index(x, s)),
        insert_by_index(x, s).len() == s.len() + 1,
        insert_by_index(x, s).to_multiset() == s.to_multiset().insert(x),
    decreases s.len(),
{
    broadcast use vstd::seq_lib::group_to_multiset_ensures;
    broadcast use vstd::multiset::group_multiset_axioms;

    let r = insert_by_index(x, s);
    if s.len() == 0 {
        assert(r =~= Seq::empty().push(x));
        assert(r.to_multiset() =~= s.to_multiset().insert(x));
    } else if x.index < s[0].index {
        assert(r =~= seq![x] + s);
        assert(seq![x] + s =~= (seq![x] + s.drop_last()).push(s.last()));
        vstd::seq_lib::lemma_multiset_commutative(seq![x], s);
        assert(seq![x].to_multiset() =~= Multiset::empty().insert(x)) by {
            assert(seq![x] =~= Seq::empty().push(x));
        }
        assert(r.to_multiset() =~= s.to_multiset().insert(x));
    } else {
        lemma_insert_by_index_ensures(x, s.drop_first());
        let rec = insert_by_index(x, s.drop_first());
        assert(r =~= seq![s[0]] + rec);
        // Sortedness: everything in `rec` is either from `s.drop_first()`,
        // all of whose indexes are at least s[0].index, or is x itself,
        // whose index is at least s[0].index.
        assert forall|i: int, j: int| 0 <= i < j < r.len() implies r[i].index <= r[j].index by {
            if i > 0 {
                assert(r[i] == rec[i - 1] && r[j] == rec[j - 1]);
            } else {
                assert(r[j] == rec[j - 1]);
                assert(rec.to_multiset().contains(rec[j - 1]));
                assert(rec.to_multiset() == s.drop_first().to_multiset().insert(x));
                if rec[j - 1] != x {
                    assert(s.drop_first().to_multiset().contains(rec[j - 1]));
                    assert(s.drop_first().contains(rec[j - 1]));
                    let k = choose|k: int|
                        0 <= k < s.drop_first().len() && s.drop_first()[k] == rec[j - 1];
                    assert(s[0].index <= s[k + 1].index);
                }
            }
        }
        vstd::seq_lib::lemma_multiset_commutative(seq![s[0]], rec);
        assert(seq![s[0]].to_multiset() =~= Multiset::empty().insert(s[0])) by {
            assert(seq![s[0]] =~= Seq::empty().push(s[0]));
        }
        assert(seq![s[0]] + s.drop_first() =~= s);
        vstd::seq_lib::lemma_multiset_commutative(seq![s[0]], s.drop_first());
        assert(r.to_multiset() =~= s.to_multiset().insert(x));
    }
}

/// What sorting does: the result is sorted by index and holds exactly the
/// same fragments.
pub proof fn lemma_sort_frags_ensures(s: Seq<FragmentView>)
    ensures
        frags_sorted(sort_frags(s)),
        sort_frags(s).len() == s.len(),
        sort_frags(s).to_multiset() == s.to_multiset(),
    decreases s.len(),
{
    broadcast use vstd::seq_lib::group_to_multiset_ensures;
    broadcast use vstd::multiset::group_multiset_axioms;

    if s.len() > 0 {
        lemma_sort_frags_ensures(s.drop_last());
        lemma_insert_by_index_ensures(s.last(), sort_frags(s.drop_last()));
        assert(s.drop_last().push(s.last()) =~= s);
        assert(sort_frags(s).to_multiset() =~= s.to_multiset());
    }
}

/// Two index-sorted sequences with the same fragments are identical, as
/// long as one of them repeats no index.
proof fn lemma_sorted_distinct_unique(x: Seq<FragmentView>, y: Seq<FragmentView>)
    requires
        frags_sorted(x),
        frags_sorted(y),
        distinct_indices(x),
        x.to_multiset() == y.to_multiset(),
    ensures
        x == y,
    decreases x.len(),
{
    broadcast use vstd::seq_lib::group_to_multiset_ensures;
    broadcast use vstd::multiset::group_multiset_axioms;

    if x.len() == 0 {
        assert(y.to_multiset().len() == 0);
        assert(x =~= y);
    } else {
        assert(x.to_multiset().len() == x.len());
        assert(y.to_multiset().len() == y.len());
        assert(y.len() == x.len());
        // The two heads carry the same index, because each is bounded by
        // an occurrence of the other.
        assert(x.to_multiset().contains(x[0]));
        assert(y.contains(x[0]));
        let j = choose|j: int| 0 <= j < y.len() && y[j] == x[0];
        assert(y.to_multiset().contains(y[0]));
        assert(x.contains(y[0]));
        let i = choose|i: int| 0 <= i < x.len() && x[i] == y[0];
        assert(x[0].index <= x[i].index);
        assert(y[0].index <= y[j].index);
        assert(x[0].index == y[0].index);
        // A second position in x with the head's index would repeat it.
        assert(i == 0);
        assert(x[0] == y[0]);
        assert(x.drop_first().to_multiset() =~= x.to_multiset().remove(x[0])) by {
            assert(x.remove(0) =~= x.drop_first());
        }
        assert(y.drop_first().to_multiset() =~= y.to_multiset().remove(y[0])) by {
            assert(y.remove(0) =~= y.drop_first());
        }
        lemma_sorted_distinct_unique(x.drop_first(), y.drop_first());
        assert(x =~= y) by {
            assert forall|k: int| 0 <= k < x.len() implies x[k] == y[k] by {
                if k > 0 {
                    assert(x[k] == x.drop_first()[k - 1]);
                    assert(y[k] == y.drop_first()[k - 1]);
                }
            }
        }
    }
}

/// No two fragments of `s` share an index, provided `s` holds the same
/// fragments as some sequence whose indexes are distinct.
proof fn lemma_distinct_indices_transfer(s: Seq<FragmentView>, t: Seq<FragmentView>)
    requires
        s.to_multiset() == t.to_multiset(),
        distinct_indices(t),
    ensures
        distinct_indices(s),
{
    broadcast use vstd::seq_lib::group_to_multiset_ensures;
    broadcast use vstd::multiset::group_multiset_axioms;

    assert forall|i: int, j: int| 0 <= i < j < s.len() implies s[i].index != s[j].index by {
        if s[i].index == s[j].index {
            if s[i] == s[j] {
                // The value would occur twice in s, hence twice in t,
                // yet t repeats no value: equal values share an index.
                let s0 = s.subrange(0, j);
                let s1 = s.subrange(j, s.len() as int);
                assert(s =~= s0 + s1);
                vstd::seq_lib::lemma_multiset_commutative(s0, s1);
                assert(s0.to_multiset().contains(s[i]));
                assert(s1.to_multiset().contains(s[j]));
                assert(s.to_multiset().count(s[i]) >= 2);
                assert(t.no_duplicates());
                t.lemma_multiset_has_no_duplicates();
                assert(t.to_multiset().count(s[i]) <= 1);
            } else {
                // Two different values with one index would both stand in
                // t, at two different positions.
                assert(s.to_multiset().contains(s[i]));
                assert(t.contains(s[i]));
                assert(s.to_multiset().contains(s[j]));
                assert(t.contains(s[j]));
                let a = choose|a: int| 0 <= a < t.len() && t[a] == s[i];
                let b = choose|b: int| 0 <= b < t.len() && t[b] == s[j];
                assert(t[a].index == t[b].index && a != b);
            }
        }
    }
}

/// Sorting leaves an already index-sorted sequence with distinct indexes
/// unchanged.
pub proof fn lemma_sorted_identity(s: Seq<FragmentView>)
    requires
        frags_sorted(s),
        distinct_indices(s),
    ensures
        sort_frags(s) == s,
{
    lemma_sort_frags_ensures(s);
    lemma_sorted_distinct_unique(s, sort_frags(s));
}

/// Fragment reordering invariant: the reassembled byte sequence does not
/// depend on arrival order. Any two arrival orders of the same fragments
/// reassemble to the same content, as long as no index is repeated.
pub proof fn lemma_reassembly_order_independent(a: Seq<FragmentView>, b: Seq<FragmentView>)
    requires
        a.to_multiset() == b.to_multiset(),
        distinct_indices(a),
    ensures
        reassembled(a) == reassembled(b),
{
    lemma_sort_frags_ensures(a);
    lemma_sort_frags_ensures(b);
    lemma_distinct_indices_transfer(sort_frags(a), a);
    lemma_sorted_distinct_unique(sort_frags(a), sort_frags(b));
}

/// Where a fragment lands when inserted into a sorted sequence: right
/// before the first position whose index is strictly larger.
proof fn lemma_insert_by_index_at(x: FragmentView, s: Seq<FragmentView>, j: int)
    requires
        frags_sorted(s),
        0 <= j <= s.len(),
        forall|i: int| 0 <= i < j ==> s[i].index <= x.index,
        j < s.len() ==> x.index < s[j].index,
    ensures
        insert_by_index(x, s) == s.subrange(0, j) + seq![x] + s.skip(j),
    decreases j,
{
    if j == 0 {
        if s.len() == 0 {
            assert(insert_by_index(x, s) =~= s.subrange(0, 0) + seq![x] + s.skip(0));
        } else {
            assert(insert_by_index(x, s) =~= s.subrange(0, 0) + seq![x] + s.skip(0));
        }
    } else {
        assert(!(x.index < s[0].index));
        lemma_insert_by_index_at(x, s.drop_first(), j - 1);
        assert(insert_by_index(x, s) =~= s.subrange(0, j) + seq![x] + s.skip(j)) by {
            assert(insert_by_index(x, s) == seq![s[0]] + insert_by_index(x, s.drop_first()));
            assert(insert_by_index(x, s.drop_first()) == s.drop_first().subrange(0, j - 1)
                + seq![x] + s.drop_first().skip(j - 1));
        }
    }
}

/// Appending a fragment appends its bytes to the concatenation.
proof fn lemma_concat_data_push(s: Seq<FragmentView>, x: FragmentView)
    ensures
        concat_data(s.push(x)) == concat_data(s) + x.data,
    decreases s.len(),
{
    if s.len() == 0 {
        assert(s.push(x)[0] == x);
        assert(s.push(x).drop_first() =~= Seq::<FragmentView>::empty());
        assert(concat_data(Seq::<FragmentView>::empty()) =~= Seq::<u8>::empty());
        assert(concat_data(s.push(x)) =~= concat_data(s) + x.data);
    } else {
        assert(s.push(x)[0] == s[0]);
        assert(s.push(x).drop_first() =~= s.drop_first().push(x));
        lemma_concat_data_push(s.drop_first(), x);
        assert(concat_data(s.push(x)) == s[0].data + (concat_data(s.drop_first()) + x.data));
        assert(s[0].data + (concat_data(s.drop_first()) + x.data) =~= (s[0].data + concat_data(
            s.drop_first(),
        )) + x.data);
        assert(concat_data(s.push(x)) =~= concat_data(s) + x.data);
    }
}

/// Copies a byte vector.
fn clone_bytes(v: &Vec<u8>) -> (r: Vec<u8>)
    ensures
        r@ == v@,
{
    let mut r: Vec<u8> = Vec::new();
    let mut i: usize = 0;
    while i < v.len()
        invariant
            i <= v@.len(),
            r@ == v@.take(i as int),
        decreases v@.len() - i,
    {
        r.push(v[i]);
        i = i + 1;
        proof {
            assert(r@ =~= v@.take(i as int));
        }
    }
    proof {
        assert(v@.take(v@.len() as int) =~= v@);
    }
    r
}

/// Compares two byte vectors.
fn bytes_eq(a: &Vec<u8>, b: &Vec<u8>) -> (r: bool)
    ensures
        r == (a@ == b@),
{
    if a.len() != b.len() {
        return false;
    }
    let mut i: usize = 0;
    while i < a.len()
        invariant
            i <= a@.len(),
            a@.len() == b@.len(),
            forall|k: int| 0 <= k < i ==> a@[k] == b@[k],
        decreases a@.len() - i,
    {
        if a[i] != b[i] {
            return false;
        }
        i = i + 1;
    }
    proof {
        assert(a@ =~= b@);
    }
    true
}

/// Sorts fragments by index, keeping arrival order among equal indexes; an
/// insertion sort, the executable shadow of [`sort_frags`].
fn sort_fragments(fragments: Vec<Fragment>) -> (r: Vec<Fragment>)
    ensures
        frag_views(r@) == sort_frags(frag_views(fragments@)),
{
    let ghost orig = frag_views(fragments@);
    let mut input = fragments;
    let mut out: Vec<Fragment> = Vec::new();
    proof {
        assert(orig.skip(0) =~= orig);
        assert(orig.take(0) =~= Seq::<FragmentView>::empty());
        assert(frag_views(out@) =~= Seq::<FragmentView>::empty());
        assert(sort_frags(orig.take(0)) == Seq::<FragmentView>::empty());
    }
    while input.len() > 0
        invariant
            input@.len() <= orig.len(),
            frag_views(input@) == orig.skip(orig.len() - input@.len()),
            frag_views(out@) == sort_frags(orig.take(orig.len() - input@.len())),
            frags_sorted(frag_views(out@)),
        decreases input@.len(),
    {
        let ghost k = orig.len() - input@.len();
        let ghost pre = input@;
        let x = input.remove(0);
        proof {
            assert(frag_views(pre) == orig.skip(k));
            assert(x == pre[0]);
            assert(x@ == frag_views(pre)[0]);
            assert(orig.skip(k)[0] == orig[k]);
            assert(x@ == orig[k]);
            assert(input@ == pre.remove(0));
            assert(pre.remove(0) =~= pre.skip(1));
            assert forall|i: int| 0 <= i < input@.len() implies frag_views(input@)[i] == orig.skip(
                k + 1,
            )[i] by {
                assert(frag_views(input@)[i] == pre[i + 1]@);
                assert(frag_views(pre)[i + 1] == pre[i + 1]@);
                assert(orig.skip(k)[i + 1] == orig[k + 1 + i]);
            }
            assert(frag_views(input@) =~= orig.skip(k + 1));
        }
        let mut j: usize = 0;
        while j < out.len() && out[j].index <= x.index
            invariant
                j <= out@.len(),
                forall|i: int| 0 <= i < j ==> frag_views(out@)[i].index <= x@.index,
            decreases out@.len() - j,
        {
            j = j + 1;
        }
        let ghost s = frag_views(out@);
        proof {
            lemma_insert_by_index_at(x@, s, j as int);
            lemma_insert_by_index_ensures(x@, s);
        }
        out.insert(j, x);
        proof {
            assert(frag_views(out@) =~= s.subrange(0, j as int) + seq![x@] + s.skip(j as int));
            assert(frag_views(out@) == insert_by_index(x@, s));
            assert(orig.take(k + 1).drop_last() =~= orig.take(k));
            assert(orig.take(k + 1).last() == orig[k]);
            assert(frag_views(out@) == sort_frags(orig.take(k + 1)));
        }
    }
    proof {
        assert(orig.take(orig.len() as int) =~= orig);
    }
    out
}

/// Concatenates the fragments' bytes in ascending index order; the
/// executable shadow of [`reassembled`].
fn reassemble(fragments: Vec<Fragment>) -> (r: Vec<u8>)
    ensures
        r@ == reassembled(frag_views(fragments@)),
{
    let ghost orig = frag_views(fragments@);
    let sorted = sort_fragments(fragments);
    let ghost sv = frag_views(sorted@);
    let mut content: Vec<u8> = Vec::new();
    let mut i: usize = 0;
    while i < sorted.len()
        invariant
            i <= sorted@.len(),
            frag_views(sorted@) == sv,
            sv == sort_frags(orig),
            content@ == concat_data(sv.take(i as int)),
        decreases sorted@.len() - i,
    {
        crate::codec::push_bytes(&mut content, &sorted[i].data);
        i = i + 1;
        proof {
            assert(sv.take(i as int) =~= sv.take(i - 1).push(sv[i - 1]));
            lemma_concat_data_push(sv.take(i - 1), sv[i - 1]);
            assert(sv[i - 1].data == sorted@[i - 1]@.data);
        }
    }
    proof {
        assert(sv.take(sorted@.len() as int) =~= sv);
    }
    content
}

/// The hex digest that the outside hashing routine assigns to a byte
/// sequence; a function of the bytes alone.
pub uninterp spec fn sha256_hex_of(data: Seq<u8>) -> Seq<u8>;

/// Relies on sha256::digest: returns the 64-character lowercase hex digest
/// of the input bytes, a function of the bytes alone.
#[verifier::external_body]
fn digest_bytes(data: &Vec<u8>) -> (r: Vec<u8>)
    ensures
        r@ == sha256_hex_of(data@),
        r@.len() == 64,
{
    sha256::digest(data).into_bytes()
}

/// Mapping the views of a pool commutes with insertion.
proof fn lemma_pool_view_insert(m: Map<u8, Transfer>, k: u8, t: Transfer)
    ensures
        pool_view(m.insert(k, t)) == pool_view(m).insert(k, t@),
{
    assert(pool_view(m.insert(k, t)) =~= pool_view(m).insert(k, t@));
}

/// Mapping the views of a pool commutes with removal.
proof fn lemma_pool_view_remove(m: Map<u8, Transfer>, k: u8)
    ensures
        pool_view(m.remove(k)) == pool_view(m).remove(k),
{
    assert(pool_view(m.remove(k)) =~= pool_view(m).remove(k));
}

/// What the engine decides for one request: a response to send back, or
/// verified content to persist under a name.
#[derive(Debug)]
pub enum RequestOutcome {
    /// Send this response; nothing is persisted.
    Reply(SlaveResponse),
    /// The checksum matched: persist `content` under `file_name`, then
    /// answer with [`response_after_save`].
    Save { file_id: u8, file_name: Vec<u8>, content: Vec<u8> },
}

/// The receiving side of one connection: all open transfers, keyed by
/// `file_id`.
#[derive(Debug)]
pub struct Slave {
    pool: HashMap<u8, Transfer>,
}

impl View for Slave {
    type V = Map<u8, TransferView>;

    closed spec fn view(&self) -> Map<u8, TransferView> {
        pool_view(self.pool@)
    }
}

impl Slave {
    /// A fresh engine with no open transfer.
    pub fn new() -> (s: Slave)
        ensures
            s@ == Map::<u8, TransferView>::empty(),
    {
        let s = Slave { pool: HashMap::new() };
        proof {
            assert(s@ =~= Map::<u8, TransferView>::empty());
        }
        s
    }

    /// Carries out one request against the pool and decides the outcome.
    ///
    /// - `Ping` answers `Pong` and touches nothing.
    /// - `FileMetadata` (re)opens the transfer for its `file_id`, dropping
    ///   any prior state for that id.
    /// - `FileFragment` appends to the open transfer, or answers
    ///   `FileIdNotFound` when none is open; other transfers are untouched.
    /// - `EndOfFile` closes the transfer and reassembles its fragments in
    ///   index order. Content whose digest differs from the declared one is
    ///   never handed out for saving: the outcome is `ChecksumNotMatched`.
    ///   On a match, the outcome carries the reassembled bytes, unaltered.
    /// - `DropFile` discards the transfer unconditionally and answers
    ///   `Okay`, also when no transfer is open.
    pub fn handle_request(&mut self, request: MasterRequest) -> (r: RequestOutcome)
        ensures
            match request@ {
                RequestView::Ping => r == RequestOutcome::Reply(SlaveResponse::Pong)
                    && final(self)@ == old(self)@,
                RequestView::FileFragment { file_id, index, data } => {
                    if old(self)@.contains_key(file_id) {
                        &&& final(self)@ == old(self)@.insert(
                            file_id,
                            TransferView {
                                file_name: old(self)@[file_id].file_name,
                                sha256: old(self)@[file_id].sha256,
                                fragments: old(self)@[file_id].fragments.push(
                                    FragmentView { index, data },
                                ),
                            },
                        )
                        &&& r == RequestOutcome::Reply(SlaveResponse::Okay)
                    } else {
                        &&& final(self)@ == old(self)@
                        &&& r == RequestOutcome::Reply(SlaveResponse::FileIdNotFound { file_id })
                    }
                },
                RequestView::FileMetadata { file_id, file_name, sha256 } => {
                    &&& final(self)@ == old(self)@.insert(
                        file_id,
                        TransferView { file_name, sha256, fragments: Seq::empty() },
                    )
                    &&& r == RequestOutcome::Reply(SlaveResponse::Okay)
                },
                RequestView::EndOfFile { file_id } => {
                    if old(self)@.contains_key(file_id) {
                        let t = old(self)@[file_id];
                        &&& final(self)@ == old(self)@.remove(file_id)
                        &&& if sha256_hex_of(reassembled(t.fragments)) == t.sha256 {
                            r matches RequestOutcome::Save { file_id: fid, file_name, content }
                                && fid == file_id && file_name@ == t.file_name && content@
                                == reassembled(t.fragments)
                        } else {
                            r == RequestOutcome::Reply(
                                SlaveResponse::ChecksumNotMatched { file_id },
                            )
                        }
                    } else {
                        &&& final(self)@ == old(self)@
                        &&& r == RequestOutcome::Reply(SlaveResponse::FileIdNotFound { file_id })
                    }
                },
                RequestView::DropFile { file_id } => {
                    &&& final(self)@ == old(self)@.remove(file_id)
                    &&& r == RequestOutcome::Reply(SlaveResponse::Okay)
                },
            },
    {
        match request {
            MasterRequest::Ping => RequestOutcome::Reply(SlaveResponse::Pong),
            MasterRequest::FileFragment { file_id, index, data } => {
                match self.pool.remove(&file_id) {
                    Some(mut t) => {
                        let ghost told = t;
                        t.fragments.push(Fragment { index, data });
                        proof {
                            assert(frag_views(t.fragments@) =~= frag_views(told.fragments@).push(
                                FragmentView { index, data: data@ },
                            ));
                            lemma_pool_view_remove(old(self).pool@, file_id);
                        }
                        let ghost pool_removed = self.pool@;
                        self.pool.insert(file_id, t);
                        proof {
                            lemma_pool_view_insert(pool_removed, file_id, t);
                            assert(self@ =~= old(self)@.insert(
                                file_id,
                                TransferView {
                                    file_name: old(self)@[file_id].file_name,
                                    sha256: old(self)@[file_id].sha256,
                                    fragments: old(self)@[file_id].fragments.push(
                                        FragmentView { index, data: data@ },
                                    ),
                                },
                            ));
                        }
                        RequestOutcome::Reply(SlaveResponse::Okay)
                    },
                    None => {
                        proof {
                            lemma_pool_view_remove(old(self).pool@, file_id);
                            assert(self@ =~= old(self)@);
                        }
                        RequestOutcome::Reply(SlaveResponse::FileIdNotFound { file_id })
                    },
                }
            },
            MasterRequest::FileMetadata { file_id, file_name, sha256 } => {
                let t = Transfer { file_name, sha256, fragments: Vec::new() };
                proof {
                    assert(frag_views(t.fragments@) =~= Seq::<FragmentView>::empty());
                    lemma_pool_view_insert(old(self).pool@, file_id, t);
                }
                self.pool.insert(file_id, t);
                RequestOutcome::Reply(SlaveResponse::Okay)
            },
            MasterRequest::EndOfFile { file_id } => {
                match self.pool.remove(&file_id) {
                    None => {
                        proof {
                            lemma_pool_view_remove(old(self).pool@, file_id);
                            assert(self@ =~= old(self)@);
                        }
                        RequestOutcome::Reply(SlaveResponse::FileIdNotFound { file_id })
                    },
                    Some(t) => {
                        proof {
                            lemma_pool_view_remove(old(self).pool@, file_id);
                        }
                        let Transfer { file_name, sha256, fragments } = t;
                        let content = reassemble(fragments);
                        let digest = digest_bytes(&content);
                        if bytes_eq(&digest, &sha256) {
                            RequestOutcome::Save { file_id, file_name, content }
                        } else {
                            RequestOutcome::Reply(SlaveResponse::ChecksumNotMatched { file_id })
                        }
                    },
                }
            },
            MasterRequest::DropFile { file_id } => {
                proof {
                    lemma_pool_view_remove(old(self).pool@, file_id);
                }
                self.pool.remove(&file_id);
                RequestOutcome::Reply(SlaveResponse::Okay)
            },
        }
    }
}

/// The response owed after the caller tried to persist a
/// [`RequestOutcome::Save`]: the transfer is acknowledged, or the failure
/// to save is reported.
pub fn response_after_save(file_id: u8, saved: bool) -> (r: SlaveResponse)
    ensures
        r == if saved {
            SlaveResponse::Okay
        } else {
            SlaveResponse::CannotSaveFile { file_id }
        },
{
    if saved {
        SlaveResponse::Okay
    } else {
        SlaveResponse::CannotSaveFile { file_id }
    }
}

} // verus!
