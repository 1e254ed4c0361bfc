//! The text of a stored word list.
//!
//! A word list is stored as its words in the order of their ids, each
//! followed by a line feed. When a word list is read, every line is a word
//! as it stands, and a last line that no line feed closes counts as a line
//! too.

use vstd::prelude::*;
use vstd::string::StringExecFns;
use crate::text::{chars_of, push_char, single_line, string_of};

verus! {

/// The text of a word list: each word followed by a line feed.
pub open spec fn listing_of(words: Seq<Seq<char>>) -> Seq<char>
    decreases words.len(),
{
    if words.len() == 0 {
        Seq::empty()
    } else {
        words[0].push('\n') + listing_of(words.drop_first())
    }
}

/// How many characters stand before the first line feed of `s`.
pub open spec fn line_len(s: Seq<char>) -> nat
    decreases s.len(),
{
    if s.len() == 0 || s[0] == '\n' {
        0
    } else {
        1 + line_len(s.drop_first())
    }
}

/// The lines of a text.
pub open spec fn lines_of(s: Seq<char>) -> Seq<Seq<char>>
    decreases s.len(),
{
    let n = line_len(s) as int;
    if s.len() == 0 {
        Seq::empty()
    } else if n >= s.len() {
        seq![s]
    } else {
        seq![s.take(n)] + lines_of(s.skip(n + 1))
    }
}

/// A run without line feed that ends at a line feed, or at the end, is the
/// first line.
pub proof fn lemma_line_len_is(s: Seq<char>, n: int)
    requires
        0 <= n <= s.len(),
        forall|i: int| 0 <= i < n ==> #[trigger] s[i] != '\n',
        n < s.len() ==> s[n] == '\n',
    ensures
        line_len(s) == n,
    decreases s.len(),
{
    if n > 0 {
        let t = s.drop_first();
        assert forall|i: int| 0 <= i < n - 1 implies #[trigger] t[i] != '\n' by {
            assert(t[i] == s[i + 1]);
        }
        assert(s[0] != '\n');
        lemma_line_len_is(t, n - 1);
    }
}

/// A run `[i, j)` without line feed that a line feed closes is the first
/// line of what starts at `i`.
pub proof fn lemma_lines_takes_line(s: Seq<char>, i: int, j: int)
    requires
        0 <= i <= j < s.len(),
        forall|k: int| i <= k < j ==> #[trigger] s[k] != '\n',
        s[j] == '\n',
    ensures
        lines_of(s.skip(i)) == seq![s.subrange(i, j)] + lines_of(s.skip(j + 1)),
{
    let t = s.skip(i);
    assert forall|k: int| 0 <= k < j - i implies #[trigger] t[k] != '\n' by {
        assert(t[k] == s[i + k]);
    }
    assert(t[j - i] == s[j]);
    lemma_line_len_is(t, j - i);
    assert(t.take(j - i) == s.subrange(i, j));
    assert(t.skip(j - i + 1) == s.skip(j + 1));
}

/// What follows the last line feed, where anything does, is the last line.
pub proof fn lemma_lines_takes_rest(s: Seq<char>, i: int)
    requires
        0 <= i < s.len(),
        forall|k: int| i <= k < s.len() ==> #[trigger] s[k] != '\n',
    ensures
        lines_of(s.skip(i)) == seq![s.skip(i)],
{
    let t = s.skip(i);
    assert forall|k: int| 0 <= k < t.len() implies #[trigger] t[k] != '\n' by {
        assert(t[k] == s[i + k]);
    }
    lemma_line_len_is(t, t.len() as int);
}

/// One more word adds its line at the end of the text.
pub proof fn lemma_listing_push(words: Seq<Seq<char>>, w: Seq<char>)
    ensures
        listing_of(words.push(w)) == listing_of(words) + w.push('\n'),
    decreases words.len(),
{
    if words.len() == 0 {
        assert(words.push(w).drop_first() == Seq::<Seq<char>>::empty());
        assert(listing_of(Seq::<Seq<char>>::empty()) == Seq::<char>::empty());
        assert(listing_of(words) == Seq::<char>::empty());
        assert(w.push('\n') + Seq::<char>::empty() == Seq::<char>::empty() + w.push('\n'));
    } else {
        lemma_listing_push(words.drop_first(), w);
        assert(words.push(w).drop_first() == words.drop_first().push(w));
        assert(words.push(w)[0] == words[0]);
        assert(words[0].push('\n') + (listing_of(words.drop_first()) + w.push('\n')) == (
        words[0].push('\n') + listing_of(words.drop_first())) + w.push('\n'));
    }
}

/// A word list is read back from its text, word for word.
pub proof fn lemma_listing_round_trip(words: Seq<Seq<char>>)
    requires
        forall|i: int| 0 <= i < words.len() ==> single_line(#[trigger] words[i]),
    ensures
        lines_of(listing_of(words)) == words,
    decreases words.len(),
{
    if words.len() > 0 {
        let w = words[0];
        let rest = words.drop_first();
        let text = listing_of(words);
        assert(single_line(w));
        assert forall|i: int| 0 <= i < rest.len() implies single_line(#[trigger] rest[i]) by {
            assert(rest[i] == words[i + 1]);
        }
        lemma_listing_round_trip(rest);
        assert forall|k: int| 0 <= k < w.len() implies #[trigger] text[k] != '\n' by {
            assert(text[k] == w[k]);
            assert(w.contains(w[k]));
        }
        assert(text[w.len() as int] == '\n');
        assert(text.skip(0) == text);
        lemma_lines_takes_line(text, 0, w.len() as int);
        assert(text.subrange(0, w.len() as int) == w);
        assert(text.skip(w.len() as int + 1) == listing_of(rest));
        assert(seq![w] + rest == words);
    }
}

/// The text under which a word list is stored.
pub fn render(words: &Vec<String>) -> (text: String)
    ensures
        text@ == listing_of(words.deep_view()),
{
    let mut text = String::new();
    let mut i: usize = 0;
    assert(words.deep_view().take(0) == Seq::<Seq<char>>::empty());
    while i < words.len()
        invariant
            i <= words.len(),
            text@ == listing_of(words.deep_view().take(i as int)),
        decreases words.len() - i,
    {
        let ghost before = text@;
        text.append(words[i].as_str());
        push_char(&mut text, '\n');
        proof {
            let done = words.deep_view().take(i as int);
            let w = words[i as int]@;
            lemma_listing_push(done, w);
            assert(done.push(w) == words.deep_view().take(i + 1));
            assert((before + w).push('\n') == before + w.push('\n'));
        }
        i += 1;
    }
    assert(words.deep_view().take(words.len() as int) == words.deep_view());
    text
}

/// The words that the text of a word list holds, one for each line.
pub fn parse(text: &str) -> (words: Vec<String>)
    ensures
        words.deep_view() == lines_of(text@),
{
    let chars = chars_of(text);
    let n = chars.len();
    let mut words: Vec<String> = Vec::new();
    let mut i: usize = 0;
    assert(chars@.skip(0) == chars@);
    assert(words.deep_view() + lines_of(chars@) == lines_of(chars@));
    while i < n
        invariant
            i <= n,
            n == chars.len(),
            lines_of(chars@) == words.deep_view() + lines_of(chars@.skip(i as int)),
        decreases n - i,
    {
        let mut j: usize = i;
        while j < n && chars[j] != '\n'
            invariant
                i <= j <= n,
                n == chars.len(),
                forall|k: int| i <= k < j ==> #[trigger] chars@[k] != '\n',
            decreases n - j,
        {
            j += 1;
        }
        let ghost before = words.deep_view();
        if j == n {
            let line = string_of(&chars, i, n);
            words.push(line);
            proof {
                lemma_lines_takes_rest(chars@, i as int);
                assert(chars@.subrange(i as int, n as int) == chars@.skip(i as int));
                assert(words.deep_view() == before.push(chars@.skip(i as int)));
                assert(chars@.skip(n as int) == Seq::<char>::empty());
                assert(before.push(chars@.skip(i as int)) + lines_of(chars@.skip(n as int))
                    == before + seq![chars@.skip(i as int)]);
            }
            i = n;
        } else {
            let line = string_of(&chars, i, j);
            words.push(line);
            proof {
                let whole = chars@.subrange(i as int, j as int);
                lemma_lines_takes_line(chars@, i as int, j as int);
                assert(words.deep_view() == before.push(whole));
                assert(before.push(whole) + lines_of(chars@.skip(j + 1)) == before + (seq![whole]
                    + lines_of(chars@.skip(j + 1))));
            }
            i = j + 1;
        }
    }
    assert(chars@.skip(n as int) == Seq::<char>::empty());
    assert(words.deep_view() + Seq::<Seq<char>>::empty() == words.deep_view());
    words
}

} // verus!
