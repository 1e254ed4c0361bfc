//! Building a model from the lines of a corpus.
//!
//! Each line is cut into tokens. A line of fewer than three tokens is passed
//! over. The tokens of any other line are given their ids, new words in the
//! order in which they stand, and every three ids in a row are counted as a
//! trigram. Trigrams never reach from one line into the next.

use vstd::prelude::*;
use crate::counts::{lemma_tally_known, positive, pruned, tally, trigrams_known, windows, Trigram,
    TrigramCounts};
use crate::index::{build_index, contiguous, is_index_of, keys_sorted};
use crate::model::Model;
use crate::text::single_line;
use crate::tokenizer::{tokenize, tokens_of};
use crate::vocab::{get_id, id_of, lemma_id_of, lemma_id_of_known, lemma_register,
    lemma_register_all_extends, register, register_all, Vocabulary, MAX_WORDS};

verus! {

/// Why a line could not be taken in.
#[derive(Clone, Copy, Debug, PartialEq, Eq, Structural)]
pub enum TrainError {
    /// The line holds a new word, and every id is taken.
    VocabularyFull,
}

/// The ids of the tokens of a line, under the vocabulary `words`.
pub open spec fn line_ids(words: Seq<Seq<char>>, tokens: Seq<Seq<char>>) -> Seq<u32> {
    Seq::new(tokens.len(), |k: int| id_of(words, tokens[k]).unwrap() as u32)
}

/// The vocabulary and the counts of what has been read so far.
pub struct Trainer {
    vocab: Vocabulary,
    counts: TrigramCounts,
}

impl Trainer {
    /// The words seen so far, in the order of their ids.
    pub closed spec fn words(&self) -> Seq<Seq<char>> {
        self.vocab@
    }

    /// How often each trigram was seen so far.
    pub closed spec fn counts(&self) -> Map<Trigram, u32> {
        self.counts@
    }

    /// Vocabulary and counts are well formed, every counted id is the id of
    /// a word, and no word holds a line feed.
    pub closed spec fn wf(&self) -> bool {
        &&& self.vocab.wf()
        &&& self.counts.wf()
        &&& trigrams_known(self.counts@, self.vocab@.len())
        &&& forall|i: int| 0 <= i < self.vocab@.len() ==> single_line(#[trigger] self.vocab@[i])
    }

    /// A trainer that has read nothing.
    pub fn new() -> (trainer: Trainer)
        ensures
            trainer.wf(),
            trainer.words() == Seq::<Seq<char>>::empty(),
            trainer.counts() == Map::<Trigram, u32>::empty(),
    {
        Trainer { vocab: Vocabulary::new(), counts: TrigramCounts::new() }
    }
}

impl Trainer {
    /// Takes in one line of the corpus. Where the line holds a new word and
    /// every id is taken, the words before that word keep the ids they were
    /// given, and nothing is counted.
    pub fn feed_line(&mut self, line: &str) -> (r: Result<(), TrainError>)
        requires
            old(self).wf(),
        ensures
            final(self).wf(),
            ({
                let tokens = tokens_of(line@);
                let all = register_all(old(self).words(), tokens);
                if tokens.len() < 3 {
                    &&& r is Ok
                    &&& final(self).words() == old(self).words()
                    &&& final(self).counts() == old(self).counts()
                } else if all.len() > MAX_WORDS {
                    &&& r == Err::<(), TrainError>(TrainError::VocabularyFull)
                    &&& final(self).words() == all.take(MAX_WORDS as int)
                    &&& final(self).counts() == old(self).counts()
                } else {
                    &&& r is Ok
                    &&& final(self).words() == all
                    &&& final(self).counts() == tally(
                        old(self).counts(),
                        windows(line_ids(all, tokens)),
                    )
                }
            }),
    {
        let tokens = tokenize(line);
        if tokens.len() < 3 {
            return Ok(());
        }
        let ghost toks = tokens.deep_view();
        let ghost start = self.vocab@;
        let ghost all = register_all(start, toks);
        let mut ids: Vec<u32> = Vec::new();
        let mut k: usize = 0;
        assert(toks.take(0) == Seq::<Seq<char>>::empty());
        while k < tokens.len()
            invariant
                k <= tokens.len(),
                tokens.len() >= 3,
                toks == tokens.deep_view(),
                toks == tokens_of(line@),
                start == old(self).vocab@,
                all == register_all(start, toks),
                forall|j: int| 0 <= j < tokens.len() ==> single_line(#[trigger] tokens[j]@),
                self.vocab.wf(),
                self.counts.wf(),
                self.counts@ == old(self).counts@,
                trigrams_known(self.counts@, self.vocab@.len()),
                self.vocab@ == register_all(start, toks.take(k as int)),
                forall|i: int|
                    0 <= i < self.vocab@.len() ==> single_line(#[trigger] self.vocab@[i]),
                ids.len() == k,
                forall|j: int|
                    0 <= j < k ==> id_of(self.vocab@, #[trigger] toks[j]) == Some(ids[j] as nat),
            decreases tokens.len() - k,
        {
            let word = tokens[k].as_str();
            let ghost before = self.vocab@;
            proof {
                lemma_id_of_known(before, word@);
                self.vocab.lemma_wf_len();
                assert(toks.take(k + 1).drop_last() == toks.take(k as int));
                assert(toks.take(k + 1).last() == word@);
                assert(register_all(start, toks.take(k + 1)) == register(before, word@));
                lemma_register_all_extends(start, toks, k + 1);
            }
            let known = self.vocab.lookup(word);
            if known.is_none() && self.vocab.len() >= MAX_WORDS {
                assert(all.take(MAX_WORDS as int) == before);
                return Err(TrainError::VocabularyFull);
            }
            let id = get_id(word, &mut self.vocab);
            let ghost ids_before = ids@;
            ids.push(id);
            proof {
                assert forall|j: int| 0 <= j < k + 1 implies id_of(
                    self.vocab@,
                    #[trigger] toks[j],
                ) == Some(ids[j] as nat) by {
                    if j < k {
                        assert(ids[j] == ids_before[j]);
                        lemma_register(before, word@, toks[j]);
                    }
                }
                assert forall|i: int| 0 <= i < self.vocab@.len() implies single_line(
                    #[trigger] self.vocab@[i],
                ) by {
                    if i < before.len() {
                        assert(self.vocab@[i] == before[i]);
                    } else {
                        assert(self.vocab@[i] == tokens[k as int]@);
                    }
                }
            }
            k += 1;
        }
        proof {
            assert(toks.take(tokens.len() as int) == toks);
            self.vocab.lemma_wf_len();
            assert(ids@ == line_ids(all, toks));
            let seen = windows(ids@);
            assert forall|i: int| 0 <= i < seen.len() implies (#[trigger] seen[i]).0 < all.len()
                && seen[i].1 < all.len() && seen[i].2 < all.len() by {
                lemma_id_of(all, toks[i]);
                lemma_id_of(all, toks[i + 1]);
                lemma_id_of(all, toks[i + 2]);
            }
            lemma_tally_known(self.counts@, seen, all.len());
        }
        self.counts.observe(ids.as_slice());
        Ok(())
    }
}

/// The threshold below which a trigram is left out of the index, where no
/// other is asked for.
pub const DEFAULT_MIN_COUNT: u32 = 2;

impl Trainer {
    /// A trainer that is well formed holds no more words than there are ids,
    /// counts no trigram zero times, counts only ids of its words, and holds
    /// no word with a line feed.
    pub proof fn lemma_wf(&self)
        requires
            self.wf(),
        ensures
            self.words().len() <= MAX_WORDS,
            positive(self.counts()),
            trigrams_known(self.counts(), self.words().len()),
            forall|i: int| 0 <= i < self.words().len() ==> single_line(#[trigger] self.words()[i]),
    {
        self.vocab.lemma_wf_len();
    }

    /// The model of what has been read: the vocabulary, and the index of the
    /// trigrams that were seen at least `min_count` times.
    pub fn finish(self, min_count: u32) -> (model: Model)
        requires
            self.wf(),
        ensures
            model.wf(),
            model.words() == self.words(),
            is_index_of(model.entries(), pruned(self.counts(), min_count)),
            keys_sorted(model.entries()),
            contiguous(model.entries()),
            forall|i: int|
                0 <= i < model.words().len() ==> single_line(#[trigger] model.words()[i]),
    {
        let mut this = self;
        this.counts.prune(min_count);
        let index = build_index(&this.counts);
        proof {
            assert forall|i: int| 0 <= i < index.len() implies (#[trigger] index[i]).w1
                < this.vocab@.len() && index[i].w2 < this.vocab@.len() && index[i].w3
                < this.vocab@.len() by {
                assert(index@.contains(index[i]));
                assert(self.counts@.contains_key((index[i].w1, index[i].w2, index[i].w3)));
            }
        }
        Model::new(index, this.vocab)
    }
}

} // verus!
