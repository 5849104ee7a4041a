//! The table that a corpus is gathered into.

use vstd::prelude::*;
use crate::merge::{
    first_entries, lemma_first_entries, lemma_merge_empty, lemma_merge_next, merge_tables,
    tables_fit, words_fit, words_in,
};
use crate::serializer::feedback::FnFeedback;
use crate::table::{AuthorCounts, AuthorFrequencyTable, WordFrequencyTable};
use crate::text::tokens::{histogram, split_words, tally_words, words_of};

verus! {

/// The counts of the words of one author.
pub type PooMapInner = WordFrequencyTable;

/// The counts of the words of every author.
pub type PooMap = AuthorFrequencyTable;

/// The word counts of the authors of a corpus.
#[derive(Debug, Clone)]
pub struct TextItem {
    pub word_freqs: PooMap,
}

impl TextItem {
    /// The table is well-formed.
    pub open spec fn wf(&self) -> bool {
        self.word_freqs.wf()
    }

    /// A corpus without authors.
    pub fn new() -> (r: Self)
        ensures
            r.wf(),
            r.word_freqs@ == AuthorCounts::empty(),
    {
        TextItem { word_freqs: AuthorFrequencyTable::new() }
    }

    /// Counts the words of a text: what is neither letter, digit nor white
    /// space is dropped, the rest is put in lower case and split at white
    /// space, and every word is counted as often as it stands there.
    pub fn process_alt(text: &str) -> (table: WordFrequencyTable)
        ensures
            table.wf(),
            table@ == histogram(words_of(text@)),
    {
        let words = split_words(text);
        tally_words(&words)
    }

    /// What `ingest` may tell its observer of a table of so many authors:
    /// that it starts, the number of authors, and that one more is done.
    pub open spec fn ingest_tells(authors: nat, event: FnFeedback) -> bool {
        match event {
            FnFeedback::Message(text) => text@ == "Process: Processing authors.."@,
            FnFeedback::Total(total) => total == authors,
            FnFeedback::Tick => true,
            FnFeedback::Progress(_) => false,
        }
    }

    /// Whether `other` can be taken in and every count still fits in 64
    /// bits.
    pub fn can_ingest(&self, other: &AuthorFrequencyTable) -> (b: bool)
        requires
            self.wf(),
            other.wf(),
        ensures
            b == tables_fit(self.word_freqs@, other@),
    {
        self.word_freqs.fits(other)
    }

    /// Takes in the counts of `other`: for every author of either table and
    /// every word of that author in either, the count afterwards is the sum
    /// of the two counts, an absent one counting as zero. The observer hears
    /// of every author of `other`.
    pub fn ingest(&mut self, other: &AuthorFrequencyTable, mut fn_feedback: impl FnMut(FnFeedback) -> ())
        requires
            old(self).wf(),
            other.wf(),
            tables_fit(old(self).word_freqs@, other@),
            forall|e: FnFeedback|
                Self::ingest_tells(other@.dom().len(), e) ==> #[trigger] call_requires(
                    fn_feedback,
                    (e,),
                ),
        ensures
            final(self).wf(),
            final(self).word_freqs@ == merge_tables(old(self).word_freqs@, other@),
    {
        let ghost before = self.word_freqs@;
        let ghost keys = other.keys();
        proof {
            other.lemma_entries();
            lemma_first_entries(keys, 0, other@);
            lemma_merge_empty(before);
        }
        let n = other.len();

        fn_feedback(FnFeedback::Message("Process: Processing authors..".to_owned()));
        fn_feedback(FnFeedback::Total(n as u64));

        let mut j: usize = 0;
        while j < n
            invariant
                forall|e: FnFeedback|
                    Self::ingest_tells(n as nat, e) ==> #[trigger] call_requires(fn_feedback, (e,)),
                self.wf(),
                other.wf(),
                keys == other.keys(),
                n == keys.len(),
                j <= n,
                tables_fit(before, other@),
                self.word_freqs@ == merge_tables(before, first_entries(keys, j as int, other@)),
            decreases n - j,
        {
            let words = other.table_at(j);
            proof {
                other.lemma_entries();
                lemma_merge_next(before, other@, keys, j as int);
                assert(words_fit(words_in(before, keys[j as int]), words_in(other@, keys[j as int])));
            }
            self.word_freqs.merge_author(other.author_at(j), words);
            fn_feedback(FnFeedback::Tick);
            j += 1;
        }
        proof {
            other.lemma_entries();
            lemma_first_entries(keys, n as int, other@);
        }
    }
}

} // verus!
