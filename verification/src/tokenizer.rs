//! Turning a line of text into normalized word tokens.
//!
//! A line is folded to lower case and cut at runs of white space; each piece
//! then loses the characters at either end that are neither letters nor digits,
//! and pieces that end up empty are dropped.

use vstd::prelude::*;
use crate::text::{alphanumeric, chars_of, is_alphanumeric, is_whitespace, lowercase_of,
    single_line, string_of, to_lowercase, whitespace};

verus! {

/// How many characters stand before the first white space of `s`.
pub open spec fn word_len(s: Seq<char>) -> nat
    decreases s.len(),
{
    if s.len() == 0 || whitespace(s[0]) {
        0
    } else {
        1 + word_len(s.drop_first())
    }
}

/// The pieces of `s` between runs of white space, left to right.
pub open spec fn split_whitespace(s: Seq<char>) -> Seq<Seq<char>>
    decreases s.len(),
{
    if s.len() == 0 {
        Seq::empty()
    } else if whitespace(s[0]) {
        split_whitespace(s.drop_first())
    } else {
        let n = word_len(s) as int;
        proof {
            lemma_word_len(s);
        }
        seq![s.take(n)] + split_whitespace(s.skip(n))
    }
}

/// How many characters at the start of `w` are neither letters nor digits.
pub open spec fn leading_junk(w: Seq<char>) -> nat
    decreases w.len(),
{
    if w.len() == 0 || alphanumeric(w[0]) {
        0
    } else {
        1 + leading_junk(w.drop_first())
    }
}

/// How many characters at the end of `w` are neither letters nor digits.
pub open spec fn trailing_junk(w: Seq<char>) -> nat
    decreases w.len(),
{
    if w.len() == 0 || alphanumeric(w.last()) {
        0
    } else {
        1 + trailing_junk(w.drop_last())
    }
}

/// `w` without the characters at either end that are neither letters nor
/// digits. What lies between the first and the last letter or digit is kept
/// as it is.
pub open spec fn trimmed(w: Seq<char>) -> Seq<char> {
    let a = leading_junk(w);
    let b = trailing_junk(w);
    if a + b >= w.len() {
        Seq::empty()
    } else {
        w.subrange(a as int, w.len() - b)
    }
}

/// Every piece trimmed, and the pieces that are then empty left out.
pub open spec fn trimmed_words(pieces: Seq<Seq<char>>) -> Seq<Seq<char>> {
    pieces.map_values(|w: Seq<char>| trimmed(w)).filter(|w: Seq<char>| w.len() > 0)
}

/// The tokens of a line of text.
pub open spec fn tokens_of(text: Seq<char>) -> Seq<Seq<char>> {
    trimmed_words(split_whitespace(lowercase_of(text)))
}

/// The leading word of `s` lies within `s`, holds no white space, and ends
/// at a white space or at the end of `s`.
pub proof fn lemma_word_len(s: Seq<char>)
    ensures
        word_len(s) <= s.len(),
        forall|i: int| 0 <= i < word_len(s) ==> !whitespace(#[trigger] s[i]),
        word_len(s) < s.len() ==> whitespace(s[word_len(s) as int]),
    decreases s.len(),
{
    if s.len() > 0 && !whitespace(s[0]) {
        let t = s.drop_first();
        lemma_word_len(t);
        assert forall|i: int| 0 <= i < word_len(s) implies !whitespace(#[trigger] s[i]) by {
            if i > 0 {
                assert(s[i] == t[i - 1]);
            }
        }
        if word_len(s) < s.len() {
            assert(s[word_len(s) as int] == t[word_len(t) as int]);
        }
    }
}

/// A run without white space that ends at a white space, or at the end, is
/// the leading word.
pub proof fn lemma_word_len_is(s: Seq<char>, n: int)
    requires
        0 <= n <= s.len(),
        forall|i: int| 0 <= i < n ==> !whitespace(#[trigger] s[i]),
        n < s.len() ==> whitespace(s[n]),
    ensures
        word_len(s) == n,
    decreases s.len(),
{
    if n > 0 {
        let t = s.drop_first();
        assert forall|i: int| 0 <= i < n - 1 implies !whitespace(#[trigger] t[i]) by {
            assert(t[i] == s[i + 1]);
        }
        assert(s[0] == s[0] && !whitespace(s[0]));
        lemma_word_len_is(t, n - 1);
    }
}

/// White space at position `i` adds nothing to the pieces that follow it.
pub proof fn lemma_split_skips_whitespace(s: Seq<char>, i: int)
    requires
        0 <= i < s.len(),
        whitespace(s[i]),
    ensures
        split_whitespace(s.skip(i)) == split_whitespace(s.skip(i + 1)),
{
    assert(s.skip(i).drop_first() == s.skip(i + 1));
}

/// A run `[i, j)` without white space that is closed by a white space, or
/// by the end, is the first piece of what starts at `i`.
pub proof fn lemma_split_takes_word(s: Seq<char>, i: int, j: int)
    requires
        0 <= i < j <= s.len(),
        forall|k: int| i <= k < j ==> !whitespace(#[trigger] s[k]),
        j < s.len() ==> whitespace(s[j]),
    ensures
        split_whitespace(s.skip(i)) == seq![s.subrange(i, j)] + split_whitespace(s.skip(j)),
{
    let t = s.skip(i);
    assert forall|k: int| 0 <= k < j - i implies !whitespace(#[trigger] t[k]) by {
        assert(t[k] == s[i + k]);
    }
    lemma_word_len_is(t, j - i);
    assert(t.take(j - i) == s.subrange(i, j));
    assert(t.skip(j - i) == s.skip(j));
}

/// A run of other characters that ends at a letter or digit, or at the end,
/// is the leading run to be trimmed.
pub proof fn lemma_leading_junk_is(w: Seq<char>, n: int)
    requires
        0 <= n <= w.len(),
        forall|i: int| 0 <= i < n ==> !alphanumeric(#[trigger] w[i]),
        n < w.len() ==> alphanumeric(w[n]),
    ensures
        leading_junk(w) == n,
    decreases w.len(),
{
    if n > 0 {
        let t = w.drop_first();
        assert forall|i: int| 0 <= i < n - 1 implies !alphanumeric(#[trigger] t[i]) by {
            assert(t[i] == w[i + 1]);
        }
        assert(!alphanumeric(w[0]));
        lemma_leading_junk_is(t, n - 1);
    }
}

/// A run of other characters at the end that starts after a letter or digit,
/// or at the start, is the trailing run to be trimmed.
pub proof fn lemma_trailing_junk_is(w: Seq<char>, n: int)
    requires
        0 <= n <= w.len(),
        forall|i: int| w.len() - n <= i < w.len() ==> !alphanumeric(#[trigger] w[i]),
        n < w.len() ==> alphanumeric(w[w.len() - n - 1]),
    ensures
        trailing_junk(w) == n,
    decreases w.len(),
{
    if n > 0 {
        let t = w.drop_last();
        assert forall|i: int| t.len() - (n - 1) <= i < t.len() implies !alphanumeric(
            #[trigger] t[i],
        ) by {
            assert(t[i] == w[i]);
        }
        assert(!alphanumeric(w[w.len() - 1]));
        lemma_trailing_junk_is(t, n - 1);
    }
}

/// One more piece adds its trimmed form at the end, unless that is empty.
pub proof fn lemma_trimmed_words_push(pieces: Seq<Seq<char>>, w: Seq<char>)
    ensures
        trimmed_words(pieces.push(w)) == if trimmed(w).len() > 0 {
            trimmed_words(pieces).push(trimmed(w))
        } else {
            trimmed_words(pieces)
        },
{
    let f = |w: Seq<char>| trimmed(w);
    let p = |w: Seq<char>| w.len() > 0;
    pieces.lemma_push_map_commute(f, w);
    pieces.map_values(f).lemma_filter_push(trimmed(w), p);
}

/// Cuts `chars` at runs of white space and returns the pieces in order.
pub fn split(chars: &Vec<char>) -> (pieces: Vec<String>)
    ensures
        pieces.deep_view() == split_whitespace(chars@),
        forall|p: int| 0 <= p < pieces.len() ==> single_line(#[trigger] pieces[p]@),
{
    let n = chars.len();
    let mut pieces: Vec<String> = Vec::new();
    let mut i: usize = 0;
    assert(chars@.skip(0) == chars@);
    assert(pieces.deep_view() + split_whitespace(chars@) == split_whitespace(chars@));
    while i < n
        invariant
            i <= n,
            n == chars.len(),
            split_whitespace(chars@) == pieces.deep_view() + split_whitespace(
                chars@.skip(i as int),
            ),
            forall|p: int| 0 <= p < pieces.len() ==> single_line(#[trigger] pieces[p]@),
        decreases n - i,
    {
        if is_whitespace(chars[i]) {
            proof {
                lemma_split_skips_whitespace(chars@, i as int);
            }
            i += 1;
        } else {
            let mut j: usize = i + 1;
            while j < n && !is_whitespace(chars[j])
                invariant
                    i < j <= n,
                    n == chars.len(),
                    forall|k: int| i <= k < j ==> !whitespace(#[trigger] chars@[k]),
                    forall|k: int| i <= k < j ==> #[trigger] chars@[k] != '\n',
                decreases n - j,
            {
                j += 1;
            }
            let word = string_of(chars, i, j);
            let ghost before = pieces.deep_view();
            let ghost pieces_before = pieces@;
            pieces.push(word);
            assert forall|p: int| 0 <= p < pieces.len() implies single_line(
                #[trigger] pieces[p]@,
            ) by {
                if p < pieces_before.len() {
                    assert(pieces[p] == pieces_before[p]);
                }
            }
            proof {
                lemma_split_takes_word(chars@, i as int, j as int);
                assert(pieces.deep_view() == before.push(chars@.subrange(i as int, j as int)));
                assert(before.push(chars@.subrange(i as int, j as int)) + split_whitespace(
                    chars@.skip(j as int),
                ) == before + (seq![chars@.subrange(i as int, j as int)] + split_whitespace(
                    chars@.skip(j as int),
                )));
            }
            i = j;
        }
    }
    assert(chars@.skip(n as int) == Seq::<char>::empty());
    assert(pieces.deep_view() + Seq::<Seq<char>>::empty() == pieces.deep_view());
    pieces
}

/// Strips from both ends of `word` the characters that are neither letters
/// nor digits.
pub fn trim(word: &str) -> (t: String)
    ensures
        t@ == trimmed(word@),
        single_line(word@) ==> single_line(t@),
{
    let chars = chars_of(word);
    let n = chars.len();
    let mut lo: usize = 0;
    while lo < n && !is_alphanumeric(chars[lo])
        invariant
            lo <= n,
            n == chars.len(),
            forall|k: int| 0 <= k < lo ==> !alphanumeric(#[trigger] chars@[k]),
        decreases n - lo,
    {
        lo += 1;
    }
    let mut hi: usize = n;
    while hi > lo && !is_alphanumeric(chars[hi - 1])
        invariant
            lo <= hi <= n,
            n == chars.len(),
            forall|k: int| hi <= k < n ==> !alphanumeric(#[trigger] chars@[k]),
        decreases hi,
    {
        hi -= 1;
    }
    proof {
        lemma_leading_junk_is(chars@, lo as int);
        if lo < n {
            lemma_trailing_junk_is(chars@, n - hi);
        }
    }
    string_of(&chars, lo, hi)
}

/// The normalized word tokens of a line, in the order in which they stand.
pub fn tokenize(text: &str) -> (tokens: Vec<String>)
    ensures
        tokens.deep_view() == tokens_of(text@),
        forall|k: int| 0 <= k < tokens.len() ==> single_line(#[trigger] tokens[k]@),
{
    let lower = to_lowercase(text);
    let chars = chars_of(lower.as_str());
    let pieces = split(&chars);
    let mut tokens: Vec<String> = Vec::new();
    let mut i: usize = 0;
    assert(pieces.deep_view().take(0) == Seq::<Seq<char>>::empty());
    while i < pieces.len()
        invariant
            i <= pieces.len(),
            tokens.deep_view() == trimmed_words(pieces.deep_view().take(i as int)),
            forall|p: int| 0 <= p < pieces.len() ==> single_line(#[trigger] pieces[p]@),
            forall|k: int| 0 <= k < tokens.len() ==> single_line(#[trigger] tokens[k]@),
        decreases pieces.len() - i,
    {
        let t = trim(pieces[i].as_str());
        let ghost before = tokens.deep_view();
        proof {
            lemma_trimmed_words_push(pieces.deep_view().take(i as int), pieces[i as int]@);
            assert(pieces.deep_view().take(i as int).push(pieces[i as int]@)
                == pieces.deep_view().take(i + 1));
        }
        if !t.as_str().is_empty() {
            let ghost tokens_before = tokens@;
            tokens.push(t);
            assert(tokens.deep_view() == before.push(t@));
            assert forall|k: int| 0 <= k < tokens.len() implies single_line(
                #[trigger] tokens[k]@,
            ) by {
                if k < tokens_before.len() {
                    assert(tokens[k] == tokens_before[k]);
                }
            }
        }
        i += 1;
    }
    assert(pieces.deep_view().take(pieces.len() as int) == pieces.deep_view());
    tokens
}

} // verus!
