//! Looking up the continuations of a context.
//!
//! A lookup resolves the two words of a context to their ids, finds the run
//! of entries with that context by binary search, and returns the words of
//! the first few entries of the run.

use vstd::prelude::*;
use crate::index::{key_le, keys_sorted};
use crate::record::Entry;
use crate::text::{chars_of, lowercase_of, to_lowercase};
use crate::tokenizer::{split, split_whitespace};
use crate::vocab::{id_of, Vocabulary};

verus! {

/// The largest number of suggestions that a lookup returns.
pub const MAX_SUGGESTIONS: usize = 5;

/// Whether `e` is an entry of the context whose words have the ids `a` and
/// `b`.
pub open spec fn has_context(e: Entry, a: nat, b: nat) -> bool {
    e.w1 == a && e.w2 == b
}

/// The entries of the context `(a, b)`, in the order in which they stand.
pub open spec fn matching(entries: Seq<Entry>, a: nat, b: nat) -> Seq<Entry> {
    entries.filter(|e: Entry| has_context(e, a, b))
}

/// The first `MAX_SUGGESTIONS` entries of `run`, or all where there are fewer.
pub open spec fn first_few(run: Seq<Entry>) -> Seq<Entry> {
    if run.len() <= MAX_SUGGESTIONS {
        run
    } else {
        run.take(MAX_SUGGESTIONS as int)
    }
}

/// The words that continue the entries of `run`.
pub open spec fn words_of(run: Seq<Entry>, vocab: Seq<Seq<char>>) -> Seq<Seq<char>> {
    run.map_values(|e: Entry| vocab[e.w3 as int])
}

/// What a lookup of the context `w1 w2` returns: nothing where either word
/// is unknown, else the continuations of the first few entries of the
/// context.
pub open spec fn predicted(
    entries: Seq<Entry>,
    vocab: Seq<Seq<char>>,
    w1: Seq<char>,
    w2: Seq<char>,
) -> Seq<Seq<char>> {
    match (id_of(vocab, w1), id_of(vocab, w2)) {
        (Some(a), Some(b)) => words_of(first_few(matching(entries, a, b)), vocab),
        _ => Seq::empty(),
    }
}

/// What a lookup for a free text returns: the suggestions for its last two
/// pieces, folded to lower case, and nothing where it has fewer than two.
pub open spec fn suggested(entries: Seq<Entry>, vocab: Seq<Seq<char>>, context: Seq<char>) -> Seq<
    Seq<char>,
> {
    let pieces = split_whitespace(lowercase_of(context));
    if pieces.len() < 2 {
        Seq::empty()
    } else {
        predicted(entries, vocab, pieces[pieces.len() - 2], pieces[pieces.len() - 1])
    }
}

/// Whether `out` are the continuations of entries that stand in a row and
/// all have the context `w1 w2`.
pub open spec fn from_one_run(
    entries: Seq<Entry>,
    vocab: Seq<Seq<char>>,
    w1: Seq<char>,
    w2: Seq<char>,
    out: Seq<Seq<char>>,
) -> bool {
    exists|from: int|
        {
            &&& 0 <= from && from + out.len() <= entries.len()
            &&& out == words_of(#[trigger] entries.subrange(from, from + out.len()), vocab)
            &&& forall|i: int|
                from <= i < from + out.len() ==> id_of(vocab, w1) == Some(
                    (#[trigger] entries[i]).w1 as nat,
                ) && id_of(vocab, w2) == Some(entries[i].w2 as nat)
        }
}

/// Every continuation is the id of a word among `n` words.
pub open spec fn continuations_known(entries: Seq<Entry>, n: nat) -> bool {
    forall|i: int| 0 <= i < entries.len() ==> (#[trigger] entries[i]).w3 < n
}

/// Where no entry has the context, nothing matches.
pub proof fn lemma_matching_none(entries: Seq<Entry>, a: nat, b: nat)
    requires
        forall|i: int| 0 <= i < entries.len() ==> !has_context(#[trigger] entries[i], a, b),
    ensures
        matching(entries, a, b) == Seq::<Entry>::empty(),
    decreases entries.len(),
{
    reveal(Seq::filter);
    if entries.len() > 0 {
        let init = entries.drop_last();
        assert forall|i: int| 0 <= i < init.len() implies !has_context(#[trigger] init[i], a, b) by {
            assert(init[i] == entries[i]);
        }
        lemma_matching_none(init, a, b);
        assert(entries.last() == entries[entries.len() - 1]);
    }
}

/// Where every entry has the context, all match.
pub proof fn lemma_matching_all(entries: Seq<Entry>, a: nat, b: nat)
    requires
        forall|i: int| 0 <= i < entries.len() ==> has_context(#[trigger] entries[i], a, b),
    ensures
        matching(entries, a, b) == entries,
    decreases entries.len(),
{
    reveal(Seq::filter);
    if entries.len() > 0 {
        let init = entries.drop_last();
        assert forall|i: int| 0 <= i < init.len() implies has_context(#[trigger] init[i], a, b) by {
            assert(init[i] == entries[i]);
        }
        lemma_matching_all(init, a, b);
        assert(entries.last() == entries[entries.len() - 1]);
        assert(init.push(entries.last()) == entries);
    }
}

/// Where the entries of a context stand in `[from, to)` and nowhere before,
/// what matches is that run and then what matches after it.
pub proof fn lemma_matching_run(entries: Seq<Entry>, a: nat, b: nat, from: int, to: int)
    requires
        0 <= from <= to <= entries.len(),
        forall|i: int| 0 <= i < from ==> !has_context(#[trigger] entries[i], a, b),
        forall|i: int| from <= i < to ==> has_context(#[trigger] entries[i], a, b),
    ensures
        matching(entries, a, b) == entries.subrange(from, to) + matching(entries.skip(to), a, b),
{
    let head = entries.subrange(0, from);
    let run = entries.subrange(from, to);
    let tail = entries.skip(to);
    let p = |e: Entry| has_context(e, a, b);
    lemma_matching_none(head, a, b);
    lemma_matching_all(run, a, b);
    assert(entries == (head + run) + tail);
    Seq::filter_distributes_over_add(head + run, tail, p);
    Seq::filter_distributes_over_add(head, run, p);
    assert(Seq::<Entry>::empty() + run == run);
}

/// Every suggestion is the continuation of an entry with the context that
/// was asked for.
pub proof fn lemma_predicted_sound(
    entries: Seq<Entry>,
    vocab: Seq<Seq<char>>,
    w1: Seq<char>,
    w2: Seq<char>,
    k: int,
)
    requires
        0 <= k < predicted(entries, vocab, w1, w2).len(),
    ensures
        exists|i: int|
            0 <= i < entries.len() && id_of(vocab, w1) == Some((#[trigger] entries[i]).w1 as nat)
                && id_of(vocab, w2) == Some(entries[i].w2 as nat) && predicted(
                entries,
                vocab,
                w1,
                w2,
            )[k] == vocab[entries[i].w3 as int],
{
    let a = id_of(vocab, w1).unwrap();
    let b = id_of(vocab, w2).unwrap();
    let p = |e: Entry| has_context(e, a, b);
    let run = matching(entries, a, b);
    let e = run[k];
    assert(first_few(run)[k] == e);
    entries.lemma_filter_pred(p, k);
    assert(run.contains(e));
    entries.lemma_filter_contains_rev(p, e);
    let i = choose|i: int| 0 <= i < entries.len() && entries[i] == e;
    assert(has_context(entries[i], a, b));
}

/// Where a context has no more entries than a lookup returns, the
/// continuation of each of its entries is among the suggestions.
pub proof fn lemma_predicted_complete(
    entries: Seq<Entry>,
    vocab: Seq<Seq<char>>,
    w1: Seq<char>,
    w2: Seq<char>,
    i: int,
)
    requires
        0 <= i < entries.len(),
        id_of(vocab, w1) == Some(entries[i].w1 as nat),
        id_of(vocab, w2) == Some(entries[i].w2 as nat),
        matching(entries, entries[i].w1 as nat, entries[i].w2 as nat).len() <= MAX_SUGGESTIONS,
    ensures
        predicted(entries, vocab, w1, w2).contains(vocab[entries[i].w3 as int]),
{
    let a = entries[i].w1 as nat;
    let b = entries[i].w2 as nat;
    let p = |e: Entry| has_context(e, a, b);
    let run = matching(entries, a, b);
    entries.lemma_filter_contains(p, i);
    let k = choose|k: int| 0 <= k < run.len() && run[k] == entries[i];
    assert(words_of(first_few(run), vocab)[k] == vocab[entries[i].w3 as int]);
}

/// A lookup returns no more than `MAX_SUGGESTIONS` words, and exactly that
/// many where the context has more entries.
pub proof fn lemma_predicted_bounded(
    entries: Seq<Entry>,
    vocab: Seq<Seq<char>>,
    w1: Seq<char>,
    w2: Seq<char>,
)
    ensures
        predicted(entries, vocab, w1, w2).len() <= MAX_SUGGESTIONS,
        match (id_of(vocab, w1), id_of(vocab, w2)) {
            (Some(a), Some(b)) => matching(entries, a, b).len() > MAX_SUGGESTIONS
                ==> predicted(entries, vocab, w1, w2).len() == MAX_SUGGESTIONS,
            _ => predicted(entries, vocab, w1, w2).len() == 0,
        },
{
}

/// The position of the first entry whose context is not before `(a, b)`,
/// found by halving. Where the contexts are not in order, the position is
/// within bounds and nothing more is said of it.
pub fn first_at_least(entries: &[Entry], a: u32, b: u32) -> (pos: usize)
    ensures
        pos <= entries.len(),
        keys_sorted(entries@) ==> forall|i: int|
            0 <= i < pos ==> !key_le((a, b), (#[trigger] entries[i]).key()),
        keys_sorted(entries@) ==> forall|i: int|
            pos <= i < entries.len() ==> key_le((a, b), (#[trigger] entries[i]).key()),
{
    let mut lo: usize = 0;
    let mut hi: usize = entries.len();
    while lo < hi
        invariant
            lo <= hi <= entries.len(),
            keys_sorted(entries@) ==> forall|i: int|
                0 <= i < lo ==> !key_le((a, b), (#[trigger] entries[i]).key()),
            keys_sorted(entries@) ==> forall|i: int|
                hi <= i < entries.len() ==> key_le((a, b), (#[trigger] entries[i]).key()),
        decreases hi - lo,
    {
        let mid = lo + (hi - lo) / 2;
        let e = &entries[mid];
        if e.w1 < a || (e.w1 == a && e.w2 < b) {
            proof {
                if keys_sorted(entries@) {
                    assert forall|i: int| 0 <= i < mid + 1 implies !key_le(
                        (a, b),
                        (#[trigger] entries[i]).key(),
                    ) by {
                        if i < mid {
                            assert(key_le(entries[i].key(), entries[mid as int].key()));
                        }
                    }
                }
            }
            lo = mid + 1;
        } else {
            proof {
                if keys_sorted(entries@) {
                    assert forall|i: int| mid <= i < entries.len() implies key_le(
                        (a, b),
                        (#[trigger] entries[i]).key(),
                    ) by {
                        if i > mid {
                            assert(key_le(entries[mid as int].key(), entries[i].key()));
                        }
                    }
                }
            }
            hi = mid;
        }
    }
    lo
}

/// The words that were seen to follow `w1 w2`, at most `MAX_SUGGESTIONS` of
/// them, in the order of the index. A context with a word that the
/// vocabulary does not hold has no suggestions.
///
/// Where the contexts of the index are not in order, the search may miss the
/// run of the context or enter it after its start; what is returned is then
/// still taken from entries of that context only.
pub fn predict(entries: &[Entry], vocab: &Vocabulary, w1: &str, w2: &str) -> (out: Vec<String>)
    requires
        vocab.wf(),
        continuations_known(entries@, vocab@.len()),
    ensures
        out.len() <= MAX_SUGGESTIONS,
        id_of(vocab@, w1@) is None || id_of(vocab@, w2@) is None ==> out.len() == 0,
        from_one_run(entries@, vocab@, w1@, w2@, out.deep_view()),
        keys_sorted(entries@) ==> out.deep_view() == predicted(entries@, vocab@, w1@, w2@),
{
    let mut out: Vec<String> = Vec::new();
    let a = match vocab.lookup(w1) {
        Some(a) => a,
        None => {
            assert(out.deep_view() == Seq::<Seq<char>>::empty());
            assert(out.deep_view() == words_of(
                entries@.subrange(0int, 0int + out.deep_view().len()),
                vocab@,
            ));
            return out;
        },
    };
    let b = match vocab.lookup(w2) {
        Some(b) => b,
        None => {
            assert(out.deep_view() == Seq::<Seq<char>>::empty());
            assert(out.deep_view() == words_of(
                entries@.subrange(0int, 0int + out.deep_view().len()),
                vocab@,
            ));
            return out;
        },
    };
    let pos = first_at_least(entries, a, b);
    let words = vocab.words();
    let mut at: usize = pos;
    assert(out.deep_view() == words_of(entries@.subrange(pos as int, at as int), vocab@));
    while at < entries.len() && out.len() < MAX_SUGGESTIONS && entries[at].has_key(a, b)
        invariant
            pos <= at <= entries.len(),
            out.len() == at - pos,
            out.len() <= MAX_SUGGESTIONS,
            words.deep_view() == vocab@,
            continuations_known(entries@, vocab@.len()),
            forall|i: int| pos <= i < at ==> (#[trigger] entries[i]).key() == (a, b),
            out.deep_view() == words_of(entries@.subrange(pos as int, at as int), vocab@),
        decreases entries.len() - at,
    {
        let id = entries[at].w3 as usize;
        let ghost before = out.deep_view();
        let ghost run = entries@.subrange(pos as int, at as int);
        out.push(words[id].clone());
        proof {
            assert(words.deep_view()[id as int] == words[id as int]@);
            assert(out.deep_view() == before.push(vocab@[id as int]));
            assert(entries@.subrange(pos as int, at + 1) == run.push(entries[at as int]));
            assert(words_of(run.push(entries[at as int]), vocab@) == words_of(run, vocab@).push(
                vocab@[id as int],
            ));
        }
        at += 1;
    }
    proof {
        assert(from_one_run(entries@, vocab@, w1@, w2@, out.deep_view())) by {
            assert(out.deep_view() == words_of(
                entries@.subrange(pos as int, pos + out.deep_view().len()),
                vocab@,
            ));
        }
        if keys_sorted(entries@) {
            let key = (a, b);
            let run = entries@.subrange(pos as int, at as int);
            let rest = entries@.skip(at as int);
            assert forall|i: int| 0 <= i < pos implies !has_context(
                #[trigger] entries[i],
                a as nat,
                b as nat,
            ) by {
                assert(!key_le(key, entries[i].key()));
            }
            assert forall|i: int| pos <= i < at implies has_context(
                #[trigger] entries[i],
                a as nat,
                b as nat,
            ) by {
                assert(entries[i].key() == key);
            }
            lemma_matching_run(entries@, a as nat, b as nat, pos as int, at as int);
            if out.len() < MAX_SUGGESTIONS {
                assert forall|i: int| 0 <= i < rest.len() implies !has_context(
                    #[trigger] rest[i],
                    a as nat,
                    b as nat,
                ) by {
                    assert(rest[i] == entries[at + i]);
                    assert(key_le(key, entries[at as int].key()));
                    if i > 0 {
                        assert(key_le(entries[at as int].key(), entries[at + i].key()));
                    }
                }
                lemma_matching_none(rest, a as nat, b as nat);
                assert(run + Seq::<Entry>::empty() == run);
            } else {
                assert((run + matching(rest, a as nat, b as nat)).take(MAX_SUGGESTIONS as int)
                    == run);
                assert(run + Seq::<Entry>::empty() == run);
            }
            assert(first_few(matching(entries@, a as nat, b as nat)) == run);
        }
    }
    out
}

/// The suggestions for the last two words of a free text. The text is
/// folded to lower case and cut at white space; a text of fewer than two
/// pieces has no suggestions.
pub fn suggest(entries: &[Entry], vocab: &Vocabulary, context: &str) -> (out: Vec<String>)
    requires
        vocab.wf(),
        continuations_known(entries@, vocab@.len()),
    ensures
        out.len() <= MAX_SUGGESTIONS,
        ({
            let pieces = split_whitespace(lowercase_of(context@));
            if pieces.len() < 2 {
                out.len() == 0
            } else {
                from_one_run(
                    entries@,
                    vocab@,
                    pieces[pieces.len() - 2],
                    pieces[pieces.len() - 1],
                    out.deep_view(),
                )
            }
        }),
        keys_sorted(entries@) ==> out.deep_view() == suggested(entries@, vocab@, context@),
{
    let lower = to_lowercase(context);
    let chars = chars_of(lower.as_str());
    let pieces = split(&chars);
    let n = pieces.len();
    if n < 2 {
        let out: Vec<String> = Vec::new();
        assert(out.deep_view() == Seq::<Seq<char>>::empty());
        return out;
    }
    predict(entries, vocab, pieces[n - 2].as_str(), pieces[n - 1].as_str())
}

} // verus!
