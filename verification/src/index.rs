//! The index: every surviving entry, in the order that lookups rely on.
//!
//! Entries are ordered by context, first word then second word. Within one
//! context the entry that was seen most often comes first; entries seen
//! equally often are ordered by the id of the continuation. No two entries of
//! an index share a trigram, so this order leaves no choice: an index is
//! determined by the counts it is built from.

use vstd::prelude::*;
use crate::counts::{count_of, holds, positive, pruned, TrigramCounts};
use crate::record::Entry;

verus! {

broadcast use vstd::seq_lib::group_to_multiset_ensures;

/// Whether the context `a` may stand before the context `b`.
pub open spec fn key_le(a: (u32, u32), b: (u32, u32)) -> bool {
    a.0 < b.0 || (a.0 == b.0 && a.1 <= b.1)
}

/// Whether `a` may stand before `b` in an index.
pub open spec fn in_order(a: Entry, b: Entry) -> bool {
    if a.key() != b.key() {
        key_le(a.key(), b.key())
    } else if a.count != b.count {
        a.count > b.count
    } else {
        a.w3 <= b.w3
    }
}

/// Every entry may stand before all that follow it.
pub open spec fn sorted(s: Seq<Entry>) -> bool {
    forall|i: int, j: int| 0 <= i < j < s.len() ==> in_order(#[trigger] s[i], #[trigger] s[j])
}

/// The contexts never go down from one entry to the next.
pub open spec fn keys_sorted(s: Seq<Entry>) -> bool {
    forall|i: int, j: int|
        0 <= i < j < s.len() ==> key_le(#[trigger] s[i].key(), #[trigger] s[j].key())
}

/// Between two entries of one context stand only entries of that context.
pub open spec fn contiguous(s: Seq<Entry>) -> bool {
    forall|i: int, j: int, k: int|
        0 <= i <= j <= k < s.len() && #[trigger] s[i].key() == #[trigger] s[k].key()
            ==> #[trigger] s[j].key() == s[i].key()
}

/// An index in order has its contexts in order.
pub proof fn lemma_sorted_keys(s: Seq<Entry>)
    requires
        sorted(s),
    ensures
        keys_sorted(s),
{
    assert forall|i: int, j: int| 0 <= i < j < s.len() implies key_le(
        #[trigger] s[i].key(),
        #[trigger] s[j].key(),
    ) by {
        assert(in_order(s[i], s[j]));
    }
}

/// Where the contexts are in order, the entries of each context stand in one
/// unbroken run.
pub proof fn lemma_contiguous(s: Seq<Entry>)
    requires
        keys_sorted(s),
    ensures
        contiguous(s),
{
    assert forall|i: int, j: int, k: int|
        0 <= i <= j <= k < s.len() && #[trigger] s[i].key() == #[trigger] s[k].key() implies #[trigger] s[j].key()
        == s[i].key() by {
        if i < j && j < k {
            assert(key_le(s[i].key(), s[j].key()));
            assert(key_le(s[j].key(), s[k].key()));
        }
    }
}

/// Decides whether `a` may stand before `b`.
pub fn precedes(a: &Entry, b: &Entry) -> (r: bool)
    ensures
        r == in_order(*a, *b),
{
    if a.w1 != b.w1 {
        a.w1 < b.w1
    } else if a.w2 != b.w2 {
        a.w2 < b.w2
    } else if a.count != b.count {
        a.count > b.count
    } else {
        a.w3 <= b.w3
    }
}

/// Merges two runs that are in order into one.
fn merge(left: &Vec<Entry>, right: &Vec<Entry>) -> (out: Vec<Entry>)
    requires
        sorted(left@),
        sorted(right@),
    ensures
        sorted(out@),
        out@.to_multiset() == left@.to_multiset().add(right@.to_multiset()),
{
    let mut out: Vec<Entry> = Vec::new();
    let mut i: usize = 0;
    let mut j: usize = 0;
    assert(left@.take(0) == Seq::<Entry>::empty());
    assert(right@.take(0) == Seq::<Entry>::empty());
    while i < left.len() || j < right.len()
        invariant
            i <= left.len(),
            j <= right.len(),
            sorted(left@),
            sorted(right@),
            sorted(out@),
            out@.to_multiset() == left@.take(i as int).to_multiset().add(
                right@.take(j as int).to_multiset(),
            ),
            forall|x: int, k: int|
                0 <= x < out.len() && i <= k < left.len() ==> in_order(
                    #[trigger] out@[x],
                    #[trigger] left@[k],
                ),
            forall|x: int, k: int|
                0 <= x < out.len() && j <= k < right.len() ==> in_order(
                    #[trigger] out@[x],
                    #[trigger] right@[k],
                ),
        decreases left.len() - i + (right.len() - j),
    {
        let ghost before = out@;
        let from_left = if i == left.len() {
            false
        } else if j == right.len() {
            true
        } else {
            precedes(&left[i], &right[j])
        };
        if from_left {
            let e = left[i];
            out.push(e);
            proof {
                assert(left@.take(i + 1) == left@.take(i as int).push(e));
                assert forall|x: int, k: int|
                    0 <= x < out.len() && j <= k < right.len() implies in_order(
                    #[trigger] out@[x],
                    #[trigger] right@[k],
                ) by {
                    if x == before.len() && k > j {
                        assert(in_order(right@[j as int], right@[k]));
                    }
                }
                assert forall|x: int, k: int|
                    0 <= x < out.len() && i + 1 <= k < left.len() implies in_order(
                    #[trigger] out@[x],
                    #[trigger] left@[k],
                ) by {
                    if x == before.len() {
                        assert(in_order(left@[i as int], left@[k]));
                    }
                }
            }
            i += 1;
        } else {
            let e = right[j];
            out.push(e);
            proof {
                assert(right@.take(j + 1) == right@.take(j as int).push(e));
                assert forall|x: int, k: int|
                    0 <= x < out.len() && i <= k < left.len() implies in_order(
                    #[trigger] out@[x],
                    #[trigger] left@[k],
                ) by {
                    if x == before.len() && k > i {
                        assert(in_order(left@[i as int], left@[k]));
                    }
                }
                assert forall|x: int, k: int|
                    0 <= x < out.len() && j + 1 <= k < right.len() implies in_order(
                    #[trigger] out@[x],
                    #[trigger] right@[k],
                ) by {
                    if x == before.len() {
                        assert(in_order(right@[j as int], right@[k]));
                    }
                }
            }
            j += 1;
        }
    }
    assert(left@.take(left.len() as int) == left@);
    assert(right@.take(right.len() as int) == right@);
    out
}

/// The entries `v[from..to]`.
fn slice_of(v: &Vec<Entry>, from: usize, to: usize) -> (part: Vec<Entry>)
    requires
        from <= to <= v.len(),
    ensures
        part@ == v@.subrange(from as int, to as int),
{
    let mut part: Vec<Entry> = Vec::new();
    let mut k: usize = from;
    while k < to
        invariant
            from <= k <= to <= v.len(),
            part@ == v@.subrange(from as int, k as int),
        decreases to - k,
    {
        part.push(v[k]);
        k += 1;
        assert(part@ == v@.subrange(from as int, k as int));
    }
    part
}

/// Puts entries in order. What comes out holds each entry as often as what
/// went in.
pub fn sort(v: Vec<Entry>) -> (out: Vec<Entry>)
    ensures
        sorted(out@),
        out@.to_multiset() == v@.to_multiset(),
    decreases v.len(),
{
    let n = v.len();
    if n <= 1 {
        return v;
    }
    let mid = n / 2;
    let left = slice_of(&v, 0, mid);
    let right = slice_of(&v, mid, n);
    proof {
        assert(v@ == left@ + right@);
        vstd::seq_lib::lemma_multiset_commutative(left@, right@);
    }
    let left = sort(left);
    let right = sort(right);
    merge(&left, &right)
}

/// Whether `index` is an index of the counts `m`: in order, with one entry
/// for each trigram that `m` holds, and no other.
pub open spec fn is_index_of(index: Seq<Entry>, m: Map<(u32, u32, u32), u32>) -> bool {
    &&& sorted(index)
    &&& index.no_duplicates()
    &&& forall|e: Entry| index.contains(e) <==> holds(m, e)
}

/// The entries of the counts, in the order of an index.
pub fn build_index(counts: &TrigramCounts) -> (index: Vec<Entry>)
    requires
        counts.wf(),
    ensures
        is_index_of(index@, counts@),
        keys_sorted(index@),
        contiguous(index@),
{
    let entries = counts.flatten();
    let index = sort(entries);
    proof {
        broadcast use vstd::multiset::group_multiset_axioms;

        entries@.lemma_multiset_has_no_duplicates();
        index@.lemma_multiset_has_no_duplicates_conv();
        assert forall|e: Entry| index@.contains(e) <==> holds(counts@, e) by {
            assert(index@.contains(e) <==> index@.to_multiset().count(e) > 0);
            assert(entries@.contains(e) <==> entries@.to_multiset().count(e) > 0);
        }
        lemma_sorted_keys(index@);
        lemma_contiguous(index@);
    }
    index
}

/// Counts have one index only: two indexes of the same counts are equal.
pub proof fn lemma_index_unique(a: Seq<Entry>, b: Seq<Entry>, m: Map<(u32, u32, u32), u32>)
    requires
        is_index_of(a, m),
        is_index_of(b, m),
    ensures
        a == b,
{
    broadcast use vstd::multiset::group_multiset_axioms;

    let leq = |x: Entry, y: Entry| in_order(x, y);
    a.lemma_multiset_has_no_duplicates();
    b.lemma_multiset_has_no_duplicates();
    assert forall|e: Entry| a.to_multiset().count(e) == b.to_multiset().count(e) by {
        assert(a.contains(e) <==> a.to_multiset().count(e) > 0);
        assert(b.contains(e) <==> b.to_multiset().count(e) > 0);
        assert(a.to_multiset().contains(e) <==> a.to_multiset().count(e) > 0);
        assert(b.to_multiset().contains(e) <==> b.to_multiset().count(e) > 0);
    }
    assert(a.to_multiset() =~= b.to_multiset());
    assert(vstd::relations::sorted_by(a, leq)) by {
        assert forall|i: int, j: int| 0 <= i < j < a.len() implies #[trigger] leq(a[i], a[j]) by {
            assert(in_order(a[i], a[j]));
        }
    }
    assert(vstd::relations::sorted_by(b, leq)) by {
        assert forall|i: int, j: int| 0 <= i < j < b.len() implies #[trigger] leq(b[i], b[j]) by {
            assert(in_order(b[i], b[j]));
        }
    }
    assert(vstd::relations::total_ordering(leq)) by {
        assert(vstd::relations::reflexive(leq));
        assert(vstd::relations::antisymmetric(leq));
        assert(vstd::relations::transitive(leq));
        assert(vstd::relations::strongly_connected(leq));
    }
    vstd::seq_lib::lemma_sorted_unique(a, b, leq);
}

/// An index built after pruning holds an entry exactly where it gives the
/// count of its trigram and that count reaches the threshold: a trigram seen
/// less often has no entry, and every other trigram has the entry with its
/// count.
pub proof fn lemma_index_membership(
    index: Seq<Entry>,
    m: Map<(u32, u32, u32), u32>,
    min_count: u32,
    e: Entry,
)
    requires
        positive(m),
        is_index_of(index, pruned(m, min_count)),
    ensures
        index.contains(e) <==> e.count >= 1 && e.count >= min_count && count_of(
            m,
            (e.w1, e.w2, e.w3),
        ) == e.count,
{
    assert(index.contains(e) <==> holds(pruned(m, min_count), e));
}

} // verus!
