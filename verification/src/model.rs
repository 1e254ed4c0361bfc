//! A model ready to answer lookups: an index with the vocabulary of its ids.

use vstd::prelude::*;
use crate::format::{decode_index, decoded, encode_index, encoded, lemma_index_round_trip, LoadError};
use crate::index::keys_sorted;
use crate::listing::{lemma_listing_round_trip, lines_of, listing_of, parse, render};
use crate::query::{from_one_run, predict, predicted, suggest, suggested, MAX_SUGGESTIONS};
use crate::record::Entry;
use crate::text::{lowercase_of, single_line};
use crate::tokenizer::split_whitespace;
use crate::vocab::{id_of, Vocabulary, MAX_WORDS};

verus! {

/// Every id of every entry is the id of a word among `n` words.
pub open spec fn ids_known(entries: Seq<Entry>, n: nat) -> bool {
    forall|i: int|
        0 <= i < entries.len() ==> (#[trigger] entries[i]).w1 < n && entries[i].w2 < n
            && entries[i].w3 < n
}

/// What loading a stored index and a stored word list gives: the entries and
/// the words, or the reason for which they are refused.
pub open spec fn loaded(bytes: Seq<u8>, text: Seq<char>) -> Result<
    (Seq<Entry>, Seq<Seq<char>>),
    LoadError,
> {
    if bytes.len() % 16 != 0 {
        Err(LoadError::PartialEntry)
    } else if lines_of(text).len() > MAX_WORDS {
        Err(LoadError::TooManyWords)
    } else if !ids_known(decoded(bytes), lines_of(text).len()) {
        Err(LoadError::IdOutOfRange)
    } else {
        Ok((decoded(bytes), lines_of(text)))
    }
}

/// What was stored is what is loaded: an index and a word list that a model
/// can hold are read back from their bytes and their text as they were, so
/// every lookup gives after loading what it gave before storing.
pub proof fn lemma_store_and_load(entries: Seq<Entry>, words: Seq<Seq<char>>)
    requires
        words.len() <= MAX_WORDS,
        ids_known(entries, words.len()),
        forall|i: int| 0 <= i < words.len() ==> single_line(#[trigger] words[i]),
    ensures
        loaded(encoded(entries), listing_of(words)) == Ok::<
            (Seq<Entry>, Seq<Seq<char>>),
            LoadError,
        >((entries, words)),
        forall|w1: Seq<char>, w2: Seq<char>|
            predicted(decoded(encoded(entries)), lines_of(listing_of(words)), w1, w2)
                == #[trigger] predicted(entries, words, w1, w2),
{
    lemma_index_round_trip(entries);
    lemma_listing_round_trip(words);
}

/// Decides whether every id of every entry is below `n`.
pub fn check_ids(entries: &[Entry], n: usize) -> (ok: bool)
    ensures
        ok == ids_known(entries@, n as nat),
{
    let mut i: usize = 0;
    while i < entries.len()
        invariant
            i <= entries.len(),
            ids_known(entries@.take(i as int), n as nat),
        decreases entries.len() - i,
    {
        let e = &entries[i];
        if e.w1 as usize >= n || e.w2 as usize >= n || e.w3 as usize >= n {
            return false;
        }
        assert forall|k: int| 0 <= k < i + 1 implies (#[trigger] entries@.take(i + 1)[k]).w1 < n
            && entries@.take(i + 1)[k].w2 < n && entries@.take(i + 1)[k].w3 < n by {
            if k < i {
                assert(entries@.take(i as int)[k] == entries@.take(i + 1)[k]);
            }
        }
        i += 1;
    }
    assert(entries@.take(entries.len() as int) == entries@);
    true
}

/// An index with the vocabulary of its ids.
pub struct Model {
    entries: Vec<Entry>,
    vocab: Vocabulary,
}

impl Model {
    /// The entries of the index, in their order.
    pub closed spec fn entries(&self) -> Seq<Entry> {
        self.entries@
    }

    /// The words of the vocabulary, in the order of their ids.
    pub closed spec fn words(&self) -> Seq<Seq<char>> {
        self.vocab@
    }

    /// The vocabulary is well formed and every id in the index is the id of
    /// one of its words.
    pub closed spec fn wf(&self) -> bool {
        self.vocab.wf() && ids_known(self.entries@, self.vocab@.len())
    }

    /// A model is well formed only with a vocabulary that ids can number and
    /// with an index that names no other ids.
    pub proof fn lemma_wf(&self)
        requires
            self.wf(),
        ensures
            self.words().len() <= MAX_WORDS,
            ids_known(self.entries(), self.words().len()),
    {
        self.vocab.lemma_wf_len();
    }

    /// A model whose words hold no line feed is loaded from what it stores
    /// with the entries and the words that it has.
    pub proof fn lemma_round_trip(&self)
        requires
            self.wf(),
            forall|i: int| 0 <= i < self.words().len() ==> single_line(#[trigger] self.words()[i]),
        ensures
            loaded(encoded(self.entries()), listing_of(self.words())) == Ok::<
                (Seq<Entry>, Seq<Seq<char>>),
                LoadError,
            >((self.entries(), self.words())),
    {
        self.lemma_wf();
        lemma_store_and_load(self.entries(), self.words());
    }

    /// The model of an index and the vocabulary of its ids.
    pub fn new(entries: Vec<Entry>, vocab: Vocabulary) -> (model: Model)
        requires
            vocab.wf(),
            ids_known(entries@, vocab@.len()),
        ensures
            model.wf(),
            model.entries() == entries@,
            model.words() == vocab@,
    {
        Model { entries, vocab }
    }

    /// The model that a stored index and a stored word list hold. Refused
    /// are an index that does not end with a whole entry, a word list with
    /// more words than there are ids, and an index that names an id without a
    /// word, in this order.
    pub fn load(index: &[u8], listing: &str) -> (r: Result<Model, LoadError>)
        ensures
            match r {
                Ok(model) => model.wf() && loaded(index@, listing@) == Ok::<
                    (Seq<Entry>, Seq<Seq<char>>),
                    LoadError,
                >((model.entries(), model.words())),
                Err(e) => loaded(index@, listing@) == Err::<
                    (Seq<Entry>, Seq<Seq<char>>),
                    LoadError,
                >(e),
            },
    {
        let entries = match decode_index(index) {
            Ok(entries) => entries,
            Err(e) => {
                return Err(e);
            },
        };
        let words = parse(listing);
        if words.len() > MAX_WORDS {
            return Err(LoadError::TooManyWords);
        }
        if !check_ids(entries.as_slice(), words.len()) {
            return Err(LoadError::IdOutOfRange);
        }
        let vocab = Vocabulary::from_words(words);
        Ok(Model { entries, vocab })
    }

    /// The entries of the index.
    pub fn index(&self) -> (entries: &Vec<Entry>)
        ensures
            entries@ == self.entries(),
    {
        &self.entries
    }

    /// The vocabulary.
    pub fn vocabulary(&self) -> (vocab: &Vocabulary)
        ensures
            vocab@ == self.words(),
            self.wf() ==> vocab.wf(),
    {
        &self.vocab
    }

    /// The bytes under which the index is stored.
    pub fn index_bytes(&self) -> (bytes: Vec<u8>)
        ensures
            bytes@ == encoded(self.entries()),
    {
        encode_index(self.entries.as_slice())
    }

    /// The text under which the word list is stored.
    pub fn listing(&self) -> (text: String)
        ensures
            text@ == listing_of(self.words()),
    {
        render(self.vocab.words())
    }

    /// The words that were seen to follow `w1 w2`, at most `MAX_SUGGESTIONS`
    /// of them, in the order of the index.
    pub fn predict(&self, w1: &str, w2: &str) -> (out: Vec<String>)
        requires
            self.wf(),
        ensures
            out.len() <= MAX_SUGGESTIONS,
            id_of(self.words(), w1@) is None || id_of(self.words(), w2@) is None ==> out.len()
                == 0,
            from_one_run(self.entries(), self.words(), w1@, w2@, out.deep_view()),
            keys_sorted(self.entries()) ==> out.deep_view() == predicted(
                self.entries(),
                self.words(),
                w1@,
                w2@,
            ),
    {
        predict(self.entries.as_slice(), &self.vocab, w1, w2)
    }

    /// The suggestions for the last two words of a free text.
    pub fn suggest(&self, context: &str) -> (out: Vec<String>)
        requires
            self.wf(),
        ensures
            out.len() <= MAX_SUGGESTIONS,
            ({
                let pieces = split_whitespace(lowercase_of(context@));
                if pieces.len() < 2 {
                    out.len() == 0
                } else {
                    from_one_run(
                        self.entries(),
                        self.words(),
                        pieces[pieces.len() - 2],
                        pieces[pieces.len() - 1],
                        out.deep_view(),
                    )
                }
            }),
            keys_sorted(self.entries()) ==> out.deep_view() == suggested(
                self.entries(),
                self.words(),
                context@,
            ),
    {
        suggest(self.entries.as_slice(), &self.vocab, context)
    }
}

} // verus!
