//! The vocabulary: every distinct token with the dense id it was given.
//!
//! Ids are handed out in the order in which words are first seen, starting at
//! zero, and are never taken back. The model of a vocabulary is the sequence
//! of its words; the id of a word is its position in that sequence.

use vstd::prelude::*;
use vstd::hash_map::StringHashMap;

verus! {

/// The largest number of words that a vocabulary holds: every id, and the
/// number of words itself, fits in 32 bits.
pub const MAX_WORDS: usize = 0xFFFF_FFFF;

/// The id under which `w` is found in `words`: the last position at which it
/// stands, or nothing where it does not occur.
pub open spec fn id_of(words: Seq<Seq<char>>, w: Seq<char>) -> Option<nat>
    decreases words.len(),
{
    if words.len() == 0 {
        None
    } else if words.last() == w {
        Some((words.len() - 1) as nat)
    } else {
        id_of(words.drop_last(), w)
    }
}

/// The words after `w` has been seen: unchanged where it is known, and with
/// `w` at the end where it is new.
pub open spec fn register(words: Seq<Seq<char>>, w: Seq<char>) -> Seq<Seq<char>> {
    if words.contains(w) {
        words
    } else {
        words.push(w)
    }
}

/// The words after each of `tokens` has been seen in turn.
pub open spec fn register_all(words: Seq<Seq<char>>, tokens: Seq<Seq<char>>) -> Seq<Seq<char>>
    decreases tokens.len(),
{
    if tokens.len() == 0 {
        words
    } else {
        register(register_all(words, tokens.drop_last()), tokens.last())
    }
}

/// What `id_of` finds is a position of the word, and the last one.
pub proof fn lemma_id_of(words: Seq<Seq<char>>, w: Seq<char>)
    ensures
        match id_of(words, w) {
            Some(i) => i < words.len() && words[i as int] == w && forall|j: int|
                i < j < words.len() ==> words[j] != w,
            None => !words.contains(w),
        },
    decreases words.len(),
{
    if words.len() > 0 && words.last() != w {
        let init = words.drop_last();
        lemma_id_of(init, w);
        match id_of(init, w) {
            Some(i) => {
                assert(init[i as int] == words[i as int]);
                assert forall|j: int| i < j < words.len() implies words[j] != w by {
                    if j < init.len() {
                        assert(init[j] == words[j]);
                    }
                }
            },
            None => {
                if words.contains(w) {
                    let k = choose|k: int| 0 <= k < words.len() && words[k] == w;
                    assert(init[k] == w);
                }
            },
        }
    }
}

/// A word that occurs is found.
pub proof fn lemma_id_of_known(words: Seq<Seq<char>>, w: Seq<char>)
    ensures
        words.contains(w) <==> id_of(words, w) is Some,
{
    lemma_id_of(words, w);
    match id_of(words, w) {
        Some(i) => {
            assert(words[i as int] == w);
        },
        None => {},
    }
}

/// A word added at the end is found there; every other word is found where
/// it was.
pub proof fn lemma_id_of_push(words: Seq<Seq<char>>, x: Seq<char>, w: Seq<char>)
    ensures
        id_of(words.push(x), w) == if x == w {
            Some(words.len())
        } else {
            id_of(words, w)
        },
{
    assert(words.push(x).drop_last() == words);
}

/// Registering a word never changes the id of a word that is already known,
/// and gives the registered word an id.
pub proof fn lemma_register(words: Seq<Seq<char>>, x: Seq<char>, w: Seq<char>)
    ensures
        id_of(words, w) is Some ==> id_of(register(words, x), w) == id_of(words, w),
        id_of(register(words, x), x) is Some,
        words.is_prefix_of(register(words, x)),
{
    lemma_id_of_known(words, x);
    lemma_id_of_known(words, w);
    lemma_id_of_push(words, x, w);
    lemma_id_of_push(words, x, x);
}

/// Two different words never share an id.
pub proof fn lemma_ids_distinct(words: Seq<Seq<char>>, a: Seq<char>, b: Seq<char>)
    requires
        a != b,
        id_of(words, a) is Some,
    ensures
        id_of(words, a) != id_of(words, b),
{
    lemma_id_of(words, a);
    lemma_id_of(words, b);
}

/// The ids given to two different words in a row are different, and seeing
/// the first word again gives the id it had from the start, without changing
/// the vocabulary.
pub proof fn lemma_id_stability(words: Seq<Seq<char>>, a: Seq<char>, b: Seq<char>)
    requires
        a != b,
    ensures
        ({
            let after_a = register(words, a);
            let after_b = register(after_a, b);
            let again = register(after_b, a);
            &&& id_of(after_a, a) is Some
            &&& id_of(after_b, b) is Some
            &&& id_of(after_b, a) == id_of(after_a, a)
            &&& id_of(after_b, a) != id_of(after_b, b)
            &&& again == after_b
            &&& id_of(again, a) == id_of(after_a, a)
        }),
{
    let after_a = register(words, a);
    let after_b = register(after_a, b);
    lemma_register(words, a, a);
    lemma_register(after_a, b, a);
    lemma_register(after_a, b, b);
    lemma_ids_distinct(after_b, a, b);
    lemma_id_of_known(after_b, a);
}

/// Registering words one after another keeps the words that were there, in
/// their places.
pub proof fn lemma_register_all_extends(words: Seq<Seq<char>>, tokens: Seq<Seq<char>>, k: int)
    requires
        0 <= k <= tokens.len(),
    ensures
        register_all(words, tokens.take(k)).is_prefix_of(register_all(words, tokens)),
    decreases tokens.len() - k,
{
    if k == tokens.len() {
        assert(tokens.take(k) == tokens);
    } else {
        lemma_register_all_extends(words, tokens, k + 1);
        let next = tokens.take(k + 1);
        assert(next.drop_last() == tokens.take(k));
        lemma_register(register_all(words, tokens.take(k)), next.last(), next.last());
    }
}

/// Every distinct token with its id.
pub struct Vocabulary {
    words: Vec<String>,
    ids: StringHashMap<u32>,
}

impl View for Vocabulary {
    type V = Seq<Seq<char>>;

    /// The words in the order of their ids.
    closed spec fn view(&self) -> Seq<Seq<char>> {
        self.words.deep_view()
    }
}

impl Vocabulary {
    /// The index agrees with the list of words, and every id fits in 32 bits.
    pub closed spec fn wf(&self) -> bool {
        &&& self.words.len() <= MAX_WORDS
        &&& forall|w: Seq<char>| #[trigger]
            self.ids@.contains_key(w) <==> id_of(self@, w) is Some
        &&& forall|w: Seq<char>| #[trigger]
            self.ids@.contains_key(w) ==> id_of(self@, w) == Some(self.ids@[w] as nat)
    }

    /// A vocabulary that is well formed holds no more words than there are
    /// ids.
    pub proof fn lemma_wf_len(&self)
        requires
            self.wf(),
        ensures
            self@.len() <= MAX_WORDS,
    {
    }

    /// A vocabulary without words.
    pub fn new() -> (vocab: Vocabulary)
        ensures
            vocab.wf(),
            vocab@ == Seq::<Seq<char>>::empty(),
    {
        let vocab = Vocabulary { words: Vec::new(), ids: StringHashMap::new() };
        assert(vocab@ == Seq::<Seq<char>>::empty());
        vocab
    }

    /// How many words the vocabulary holds.
    pub fn len(&self) -> (n: usize)
        ensures
            n == self@.len(),
    {
        self.words.len()
    }

    /// The id of `word`, or nothing where the vocabulary does not hold it.
    pub fn lookup(&self, word: &str) -> (id: Option<u32>)
        requires
            self.wf(),
        ensures
            match id {
                Some(i) => id_of(self@, word@) == Some(i as nat),
                None => id_of(self@, word@) is None,
            },
    {
        match self.ids.get(word) {
            Some(i) => Some(*i),
            None => None,
        }
    }

    /// The word with the given id, or nothing where no word has it.
    pub fn word(&self, id: u32) -> (word: Option<&String>)
        ensures
            match word {
                Some(w) => id < self@.len() && w@ == self@[id as int],
                None => id >= self@.len(),
            },
    {
        if (id as usize) < self.words.len() {
            Some(&self.words[id as usize])
        } else {
            None
        }
    }

    /// The words in the order of their ids.
    pub fn words(&self) -> (words: &Vec<String>)
        ensures
            words.deep_view() == self@,
    {
        &self.words
    }
}

impl Vocabulary {
    /// The vocabulary whose words are `words`, each with its position as id.
    /// Where a word stands more than once, it is found at its last position.
    pub fn from_words(words: Vec<String>) -> (vocab: Vocabulary)
        requires
            words.len() <= MAX_WORDS,
        ensures
            vocab.wf(),
            vocab@ == words.deep_view(),
    {
        let mut ids: StringHashMap<u32> = StringHashMap::new();
        let ghost all = words.deep_view();
        let mut i: usize = 0;
        while i < words.len()
            invariant
                i <= words.len() <= MAX_WORDS,
                all == words.deep_view(),
                forall|w: Seq<char>| #[trigger]
                    ids@.contains_key(w) <==> id_of(all.take(i as int), w) is Some,
                forall|w: Seq<char>| #[trigger]
                    ids@.contains_key(w) ==> id_of(all.take(i as int), w) == Some(ids@[w] as nat),
            decreases words.len() - i,
        {
            let ghost seen = all.take(i as int);
            let ghost x = words[i as int]@;
            ids.insert(words[i].clone(), i as u32);
            proof {
                assert(seen.push(x) == all.take(i + 1));
                assert forall|w: Seq<char>| #[trigger]
                    ids@.contains_key(w) <==> id_of(all.take(i + 1), w) is Some by {
                    lemma_id_of_push(seen, x, w);
                }
                assert forall|w: Seq<char>| #[trigger] ids@.contains_key(w) implies id_of(
                    all.take(i + 1),
                    w,
                ) == Some(ids@[w] as nat) by {
                    lemma_id_of_push(seen, x, w);
                }
            }
            i += 1;
        }
        assert(all.take(words.len() as int) == all);
        Vocabulary { words, ids }
    }
}

/// The id of `word`. A word that the vocabulary does not hold yet is added
/// at the end, and its id is the number of words that were there before it.
pub fn get_id(word: &str, vocab: &mut Vocabulary) -> (id: u32)
    requires
        old(vocab).wf(),
        old(vocab)@.contains(word@) || old(vocab)@.len() < MAX_WORDS,
    ensures
        final(vocab).wf(),
        final(vocab)@ == register(old(vocab)@, word@),
        id_of(final(vocab)@, word@) == Some(id as nat),
        !old(vocab)@.contains(word@) ==> id == old(vocab)@.len(),
{
    proof {
        lemma_id_of_known(vocab@, word@);
    }
    match vocab.ids.get(word) {
        Some(known) => *known,
        None => {
            let ghost before = vocab@;
            let id = vocab.words.len() as u32;
            vocab.ids.insert(word.to_owned(), id);
            vocab.words.push(word.to_owned());
            proof {
                assert(vocab@ == before.push(word@));
                assert forall|w: Seq<char>| #[trigger]
                    vocab.ids@.contains_key(w) <==> id_of(vocab@, w) is Some by {
                    lemma_id_of_push(before, word@, w);
                }
                assert forall|w: Seq<char>| #[trigger] vocab.ids@.contains_key(w) implies id_of(
                    vocab@,
                    w,
                ) == Some(vocab.ids@[w] as nat) by {
                    lemma_id_of_push(before, word@, w);
                }
                lemma_id_of_push(before, word@, word@);
            }
            id
        },
    }
}

} // verus!
