//! Counting how often each trigram was seen.
//!
//! A trigram is three word ids in a row: a context of two and the word that
//! continued it. The model of the counts is a map from trigrams to the number
//! of times each was seen; a trigram that was never seen is not in the map.
//! A count that reaches `u32::MAX` stays there.

use vstd::prelude::*;
use std::collections::HashMap;
use vstd::std_specs::iter::IteratorSpec;
use crate::record::Entry;

verus! {

broadcast use vstd::std_specs::hash::group_hash_axioms;

/// Three word ids in a row: the two of the context, then the continuation.
pub type Trigram = (u32, u32, u32);

/// How often `t` was seen according to `m`: nothing for a trigram that `m`
/// does not hold.
pub open spec fn count_of(m: Map<Trigram, u32>, t: Trigram) -> nat {
    if m.contains_key(t) {
        m[t] as nat
    } else {
        0
    }
}

/// The counts after `t` has been seen once more.
pub open spec fn bump(m: Map<Trigram, u32>, t: Trigram) -> Map<Trigram, u32> {
    m.insert(
        t,
        if count_of(m, t) < u32::MAX {
            (count_of(m, t) + 1) as u32
        } else {
            u32::MAX
        },
    )
}

/// The counts after each of `seen` has been seen once more.
pub open spec fn tally(m: Map<Trigram, u32>, seen: Seq<Trigram>) -> Map<Trigram, u32>
    decreases seen.len(),
{
    if seen.len() == 0 {
        m
    } else {
        bump(tally(m, seen.drop_last()), seen.last())
    }
}

/// The trigrams of a line: one for each three ids that stand in a row.
pub open spec fn windows(ids: Seq<u32>) -> Seq<Trigram> {
    Seq::new(
        if ids.len() >= 3 {
            (ids.len() - 2) as nat
        } else {
            0
        },
        |i: int| (ids[i], ids[i + 1], ids[i + 2]),
    )
}

/// The counts without the trigrams that were seen less than `min_count`
/// times.
pub open spec fn pruned(m: Map<Trigram, u32>, min_count: u32) -> Map<Trigram, u32> {
    Map::new(|t: Trigram| m.contains_key(t) && m[t] >= min_count, |t: Trigram| m[t])
}

/// The count of a trigram after a run of observations is the count it had
/// plus the number of times it stands in the run, as far as 32 bits hold it.
pub proof fn lemma_tally_counts(m: Map<Trigram, u32>, seen: Seq<Trigram>, t: Trigram)
    ensures
        count_of(tally(m, seen), t) == if count_of(m, t) + seen.to_multiset().count(t)
            <= u32::MAX {
            count_of(m, t) + seen.to_multiset().count(t)
        } else {
            u32::MAX as nat
        },
    decreases seen.len(),
{
    broadcast use vstd::seq_lib::group_to_multiset_ensures;

    if seen.len() > 0 {
        let init = seen.drop_last();
        lemma_tally_counts(m, init, t);
        assert(seen == init.push(seen.last()));
    }
}

/// Pruning keeps the count of a trigram that was seen often enough, and
/// leaves nothing of any other.
pub proof fn lemma_pruned_counts(m: Map<Trigram, u32>, min_count: u32, t: Trigram)
    ensures
        count_of(pruned(m, min_count), t) == if count_of(m, t) >= min_count {
            count_of(m, t)
        } else {
            0
        },
{
}

/// Every id of every trigram in `m` is the id of a word among `n` words.
pub open spec fn trigrams_known(m: Map<Trigram, u32>, n: nat) -> bool {
    forall|t: Trigram| #[trigger] m.contains_key(t) ==> t.0 < n && t.1 < n && t.2 < n
}

/// Observations of known ids leave only known ids in the counts.
pub proof fn lemma_tally_known(m: Map<Trigram, u32>, seen: Seq<Trigram>, n: nat)
    requires
        trigrams_known(m, n),
        forall|i: int|
            0 <= i < seen.len() ==> (#[trigger] seen[i]).0 < n && seen[i].1 < n && seen[i].2
                < n,
    ensures
        trigrams_known(tally(m, seen), n),
    decreases seen.len(),
{
    if seen.len() > 0 {
        let init = seen.drop_last();
        assert forall|i: int| 0 <= i < init.len() implies (#[trigger] init[i]).0 < n && init[i].1
            < n && init[i].2 < n by {
            assert(init[i] == seen[i]);
        }
        lemma_tally_known(m, init, n);
        assert(seen.last() == seen[seen.len() - 1]);
    }
}

/// Every count in `m` is at least one.
pub open spec fn positive(m: Map<Trigram, u32>) -> bool {
    forall|t: Trigram| #[trigger] m.contains_key(t) ==> m[t] >= 1
}

/// The key under which the table holds a trigram: its three ids side by side.
spec fn key_of(t: Trigram) -> u128 {
    (t.0 * 0x1_0000_0000_0000_0000 + t.1 * 0x1_0000_0000 + t.2) as u128
}

/// The trigram that a key of the table stands for.
spec fn trigram_of(k: u128) -> Trigram {
    (
        (k / 0x1_0000_0000_0000_0000) as u32,
        ((k / 0x1_0000_0000) % 0x1_0000_0000) as u32,
        (k % 0x1_0000_0000) as u32,
    )
}

/// A key is below `2^96` and gives back the trigram it was made of.
proof fn lemma_key_of(t: Trigram)
    ensures
        key_of(t) < 0x1_0000_0000_0000_0000_0000_0000,
        trigram_of(key_of(t)) == t,
{
}

/// A number below `2^96` is the key of the trigram it stands for.
proof fn lemma_trigram_of(k: u128)
    requires
        k < 0x1_0000_0000_0000_0000_0000_0000,
    ensures
        key_of(trigram_of(k)) == k,
{
}

/// How often each trigram was seen.
pub struct TrigramCounts {
    table: HashMap<u128, u32>,
}

impl View for TrigramCounts {
    type V = Map<Trigram, u32>;

    closed spec fn view(&self) -> Map<Trigram, u32> {
        Map::new(
            |t: Trigram| self.table@.contains_key(key_of(t)),
            |t: Trigram| self.table@[key_of(t)],
        )
    }
}

impl TrigramCounts {
    /// Every key of the table stands for a trigram.
    pub closed spec fn keyed(&self) -> bool {
        forall|k: u128| #[trigger]
            self.table@.contains_key(k) ==> k < 0x1_0000_0000_0000_0000_0000_0000
    }

    /// The table is consistent, and no trigram is held with a count of zero.
    pub open spec fn wf(&self) -> bool {
        self.keyed() && positive(self@)
    }

    /// Counts in which nothing has been seen.
    pub fn new() -> (counts: TrigramCounts)
        ensures
            counts.wf(),
            counts@ == Map::<Trigram, u32>::empty(),
    {
        let counts = TrigramCounts { table: HashMap::new() };
        assert(counts@ =~= Map::<Trigram, u32>::empty());
        counts
    }

    /// How often the trigram `(a, b, c)` was seen.
    pub fn count(&self, a: u32, b: u32, c: u32) -> (n: u32)
        ensures
            n == count_of(self@, (a, b, c)),
    {
        let k = key(a, b, c);
        match self.table.get(&k) {
            Some(n) => *n,
            None => 0,
        }
    }

    /// Counts the trigram `(a, b, c)` once more.
    pub fn record(&mut self, a: u32, b: u32, c: u32)
        requires
            old(self).wf(),
        ensures
            final(self).wf(),
            final(self)@ == bump(old(self)@, (a, b, c)),
    {
        let k = key(a, b, c);
        let n = match self.table.get(&k) {
            Some(n) => *n,
            None => 0,
        };
        let m: u32 = if n < u32::MAX {
            n + 1
        } else {
            n
        };
        self.table.insert(k, m);
        proof {
            assert forall|t: Trigram| key_of(t) == k implies t == (a, b, c) by {
                lemma_key_of(t);
                lemma_key_of((a, b, c));
            }
            assert(self@ =~= bump(old(self)@, (a, b, c)));
        }
    }
}

/// The entry that says that `t` was seen `n` times.
pub open spec fn entry_of(t: Trigram, n: u32) -> Entry {
    Entry { w1: t.0, w2: t.1, w3: t.2, count: n }
}

/// Whether `e` says of its trigram what `m` holds for it.
pub open spec fn holds(m: Map<Trigram, u32>, e: Entry) -> bool {
    m.contains_key((e.w1, e.w2, e.w3)) && m[(e.w1, e.w2, e.w3)] == e.count
}

impl TrigramCounts {
    /// Counts every trigram of a line of word ids once more. A line of fewer
    /// than three ids has no trigram.
    pub fn observe(&mut self, ids: &[u32])
        requires
            old(self).wf(),
        ensures
            final(self).wf(),
            final(self)@ == tally(old(self)@, windows(ids@)),
    {
        let n = ids.len();
        let ghost seen = windows(ids@);
        assert(seen.take(0) == Seq::<Trigram>::empty());
        if n < 3 {
            return ;
        }
        let mut i: usize = 0;
        while i < n - 2
            invariant
                n == ids.len(),
                n >= 3,
                i <= n - 2,
                seen == windows(ids@),
                self.wf(),
                self@ == tally(old(self)@, seen.take(i as int)),
            decreases n - i,
        {
            self.record(ids[i], ids[i + 1], ids[i + 2]);
            proof {
                let next = seen.take(i + 1);
                assert(next.drop_last() == seen.take(i as int));
                assert(next.last() == (ids@[i as int], ids@[i + 1], ids@[i + 2]));
            }
            i += 1;
        }
        assert(seen.take(seen.len() as int) == seen);
    }

    /// Removes every trigram that was seen less than `min_count` times. The
    /// others keep their counts.
    pub fn prune(&mut self, min_count: u32)
        requires
            old(self).wf(),
        ensures
            final(self).wf(),
            final(self)@ == pruned(old(self)@, min_count),
    {
        let keys = keys_of(&self.table);
        let ghost before = self.table@;
        let mut i: usize = 0;
        while i < keys.len()
            invariant
                i <= keys.len(),
                keys@.to_set() == before.dom(),
                forall|k: u128| #[trigger]
                    self.table@.contains_key(k) <==> before.contains_key(k) && (before[k]
                        >= min_count || !keys@.take(i as int).contains(k)),
                forall|k: u128| #[trigger]
                    self.table@.contains_key(k) ==> self.table@[k] == before[k],
            decreases keys.len() - i,
        {
            let k = keys[i];
            let ghost done = keys@.take(i as int);
            assert(keys@.take(i + 1) == done.push(k));
            assert(keys@.to_set().contains(k));
            let low = match self.table.get(&k) {
                Some(n) => *n < min_count,
                None => false,
            };
            if low {
                self.table.remove(&k);
            }
            proof {
                assert forall|x: u128| keys@.take(i + 1).contains(x) <==> done.contains(x) || x
                    == k by {
                    if done.contains(x) {
                        let j = choose|j: int| 0 <= j < done.len() && done[j] == x;
                        assert(done.push(k)[j] == x);
                    }
                    assert(done.push(k)[i as int] == k);
                }
            }
            i += 1;
        }
        proof {
            assert(keys@.take(keys.len() as int) == keys@);
            assert forall|k: u128| before.contains_key(k) implies keys@.contains(k) by {
                assert(keys@.to_set().contains(k));
            }
            assert(self@ =~= pruned(old(self)@, min_count));
        }
    }

    /// One entry for each trigram with its count, each once, in no
    /// particular order.
    pub fn flatten(&self) -> (entries: Vec<Entry>)
        requires
            self.wf(),
        ensures
            entries@.no_duplicates(),
            forall|e: Entry| entries@.contains(e) <==> holds(self@, e),
    {
        let keys = keys_of(&self.table);
        let mut entries: Vec<Entry> = Vec::new();
        let mut i: usize = 0;
        while i < keys.len()
            invariant
                i <= keys.len(),
                self.wf(),
                keys@.no_duplicates(),
                keys@.to_set() == self.table@.dom(),
                entries.len() == i,
                forall|j: int|
                    0 <= j < i ==> #[trigger] entries@[j] == entry_of(
                        trigram_of(keys@[j]),
                        self.table@[keys@[j]],
                    ),
            decreases keys.len() - i,
        {
            let k = keys[i];
            assert(keys@.to_set().contains(k));
            let n = match self.table.get(&k) {
                Some(n) => *n,
                None => 0,
            };
            let a = (k / 0x1_0000_0000_0000_0000) as u32;
            let b = ((k / 0x1_0000_0000) % 0x1_0000_0000) as u32;
            let c = (k % 0x1_0000_0000) as u32;
            entries.push(Entry { w1: a, w2: b, w3: c, count: n });
            i += 1;
        }
        proof {
            assert forall|j: int| 0 <= j < keys.len() implies #[trigger] self.table@.contains_key(
                keys@[j],
            ) && key_of(trigram_of(keys@[j])) == keys@[j] by {
                assert(keys@.to_set().contains(keys@[j]));
                lemma_trigram_of(keys@[j]);
            }
            assert forall|x: int, y: int|
                0 <= x < entries.len() && 0 <= y < entries.len() && x != y implies entries@[x]
                != entries@[y] by {
                assert(self.table@.contains_key(keys@[x]));
                assert(self.table@.contains_key(keys@[y]));
            }
            assert forall|e: Entry| entries@.contains(e) <==> holds(self@, e) by {
                let t = (e.w1, e.w2, e.w3);
                if entries@.contains(e) {
                    let j = choose|j: int| 0 <= j < entries.len() && entries@[j] == e;
                    assert(self.table@.contains_key(keys@[j]));
                }
                if holds(self@, e) {
                    lemma_key_of(t);
                    assert(keys@.to_set().contains(key_of(t)));
                    let j = choose|j: int| 0 <= j < keys.len() && keys@[j] == key_of(t);
                    assert(entries@[j] == e);
                }
            }
        }
        entries
    }
}

/// Computes the key of a trigram.
fn key(a: u32, b: u32, c: u32) -> (k: u128)
    ensures
        k == key_of((a, b, c)),
{
    (a as u128) * 0x1_0000_0000_0000_0000 + (b as u128) * 0x1_0000_0000 + (c as u128)
}

/// The keys of `table`, each once, in no particular order.
fn keys_of(table: &HashMap<u128, u32>) -> (keys: Vec<u128>)
    ensures
        keys@.no_duplicates(),
        keys@.to_set() == table@.dom(),
{
    let mut keys: Vec<u128> = Vec::new();
    let ghost all: Seq<u128> = table.keys().remaining().unref();
    assert(all.no_duplicates()) by {
        let refs = table.keys().remaining();
        assert forall|i: int, j: int| 0 <= i < all.len() && 0 <= j < all.len() && i != j implies all[i]
            != all[j] by {
            assert(refs[i] != refs[j]);
        }
    }
    for k in it: table.keys()
        invariant
            it.seq().unref() == all,
            keys@ == all.take(it.index()),
    {
        keys.push(*k);
    }
    assert(all.take(all.len() as int) == all);
    keys
}

} // verus!
