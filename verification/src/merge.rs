//! Combining tables: counts of the same word of the same author add up.

use vstd::prelude::*;
use vstd::slice::slice_to_vec;
use crate::order::{lemma_increasing_distinct, lists};
use crate::table::{AuthorCounts, AuthorFrequencyTable, WordCounts, WordFrequencyTable};

verus! {

/// The count of a word, zero where the word is absent.
pub open spec fn count_in(words: WordCounts, word: Seq<u8>) -> nat {
    if words.contains_key(word) {
        words[word]
    } else {
        0
    }
}

/// The words of an author, none where the author is absent.
pub open spec fn words_in(table: AuthorCounts, author: Seq<u8>) -> WordCounts {
    if table.contains_key(author) {
        table[author]
    } else {
        WordCounts::empty()
    }
}

/// The words of either operand, each with the sum of its two counts.
pub open spec fn merge_words(a: WordCounts, b: WordCounts) -> WordCounts {
    Map::new(
        |w: Seq<u8>| a.contains_key(w) || b.contains_key(w),
        |w: Seq<u8>| count_in(a, w) + count_in(b, w),
    )
}

/// The authors of either operand, each with the merged words of the two.
pub open spec fn merge_tables(a: AuthorCounts, b: AuthorCounts) -> AuthorCounts {
    Map::new(
        |k: Seq<u8>| a.contains_key(k) || b.contains_key(k),
        |k: Seq<u8>| merge_words(words_in(a, k), words_in(b, k)),
    )
}

/// Every sum of two counts of one word fits in 64 bits.
pub open spec fn words_fit(a: WordCounts, b: WordCounts) -> bool {
    forall|w: Seq<u8>| #[trigger] count_in(a, w) + count_in(b, w) <= u64::MAX
}

/// Every sum of two counts of one word of one author fits in 64 bits.
pub open spec fn tables_fit(a: AuthorCounts, b: AuthorCounts) -> bool {
    forall|k: Seq<u8>| #[trigger] words_fit(words_in(a, k), words_in(b, k))
}

/// Merging word counts does not depend on the order of the operands.
pub proof fn lemma_merge_words_commutative(a: WordCounts, b: WordCounts)
    ensures
        merge_words(a, b) == merge_words(b, a),
{
    assert(merge_words(a, b) =~= merge_words(b, a));
}

/// Merging word counts does not depend on the grouping of the operands.
pub proof fn lemma_merge_words_associative(a: WordCounts, b: WordCounts, c: WordCounts)
    ensures
        merge_words(merge_words(a, b), c) == merge_words(a, merge_words(b, c)),
{
    assert(merge_words(merge_words(a, b), c) =~= merge_words(a, merge_words(b, c)));
}

/// Words that are merged with none stay as they are.
pub proof fn lemma_merge_words_empty(a: WordCounts)
    ensures
        merge_words(a, WordCounts::empty()) == a,
        merge_words(WordCounts::empty(), a) == a,
{
    assert(merge_words(a, WordCounts::empty()) =~= a);
    assert(merge_words(WordCounts::empty(), a) =~= a);
}

/// Merging tables does not depend on the order of the operands: for any
/// two tables, merging the second into the first gives, entry by entry, what
/// merging the first into the second gives.
pub proof fn lemma_merge_commutative(a: AuthorCounts, b: AuthorCounts)
    ensures
        merge_tables(a, b) == merge_tables(b, a),
{
    assert forall|k: Seq<u8>| #[trigger]
        merge_tables(a, b).contains_key(k) implies merge_tables(a, b)[k] == merge_tables(b, a)[k] by {
        lemma_merge_words_commutative(words_in(a, k), words_in(b, k));
    }
    assert(merge_tables(a, b) =~= merge_tables(b, a));
}

/// Merging tables does not depend on the grouping of the operands: for any
/// three tables, merging the third into the merge of the first two gives,
/// entry by entry, what merging the merge of the last two into the first
/// gives.
pub proof fn lemma_merge_associative(a: AuthorCounts, b: AuthorCounts, c: AuthorCounts)
    ensures
        merge_tables(merge_tables(a, b), c) == merge_tables(a, merge_tables(b, c)),
{
    let left = merge_tables(merge_tables(a, b), c);
    let right = merge_tables(a, merge_tables(b, c));
    assert forall|k: Seq<u8>| #[trigger] left.contains_key(k) implies left[k] == right[k] by {
        let wa = words_in(a, k);
        let wb = words_in(b, k);
        let wc = words_in(c, k);
        lemma_merge_words_empty(wa);
        lemma_merge_words_empty(wc);
        lemma_merge_words_empty(WordCounts::empty());
        assert(words_in(merge_tables(a, b), k) == merge_words(wa, wb));
        assert(words_in(merge_tables(b, c), k) == merge_words(wb, wc));
        lemma_merge_words_associative(wa, wb, wc);
    }
    assert(left =~= right);
}

/// The entries of a map under the first `n` of `keys`.
pub open spec fn first_entries<V>(keys: Seq<Seq<u8>>, n: int, entries: Map<Seq<u8>, V>) -> Map<Seq<u8>, V> {
    entries.restrict(keys.take(n).to_set())
}

/// The first entries grow by one entry with each key, from none to all.
pub proof fn lemma_first_entries<V>(keys: Seq<Seq<u8>>, n: int, entries: Map<Seq<u8>, V>)
    requires
        lists(keys, entries.dom()),
        0 <= n <= keys.len(),
    ensures
        n == 0 ==> first_entries(keys, n, entries) == Map::<Seq<u8>, V>::empty(),
        n == keys.len() ==> first_entries(keys, n, entries) == entries,
        n < keys.len() ==> !first_entries(keys, n, entries).contains_key(keys[n])
            && entries.contains_key(keys[n]) && first_entries(keys, n + 1, entries)
            == first_entries(keys, n, entries).insert(keys[n], entries[keys[n]]),
{
    if n == 0 {
        assert(first_entries(keys, n, entries) =~= Map::<Seq<u8>, V>::empty());
    }
    if n == keys.len() {
        assert(keys.take(n) =~= keys);
        assert forall|k: Seq<u8>| entries.contains_key(k) implies keys.to_set().contains(k) by {
            assert(keys.contains(k));
        }
        assert(first_entries(keys, n, entries) =~= entries);
    }
    if n < keys.len() {
        let key = keys[n];
        assert(keys.contains(key));
        if keys.take(n).to_set().contains(key) {
            let i = keys.take(n).index_of(key);
            assert(keys.take(n).contains(key));
            assert(keys[i] == key);
            lemma_increasing_distinct(keys, i, n);
        }
        let more = first_entries(keys, n + 1, entries);
        let less = first_entries(keys, n, entries).insert(key, entries[key]);
        assert forall|k: Seq<u8>| more.contains_key(k) <==> less.contains_key(k) by {
            if more.contains_key(k) {
                assert(keys.take(n + 1).contains(k));
                let i = keys.take(n + 1).index_of(k);
                if i < n {
                    assert(keys.take(n)[i] == k);
                    assert(keys.take(n).contains(k));
                }
            }
            if less.contains_key(k) {
                if k == key {
                    assert(keys.take(n + 1)[n] == k);
                } else {
                    assert(keys.take(n).contains(k));
                    let i = keys.take(n).index_of(k);
                    assert(keys.take(n + 1)[i] == k);
                }
                assert(keys.take(n + 1).contains(k));
            }
        }
        assert(more =~= less);
    }
}

impl WordFrequencyTable {
    /// Adds the counts of `other` to the counts of this table, word by word.
    pub fn merge(&mut self, other: &WordFrequencyTable)
        requires
            old(self).wf(),
            other.wf(),
            words_fit(old(self)@, other@),
        ensures
            final(self).wf(),
            final(self)@ == merge_words(old(self)@, other@),
    {
        let ghost before = self@;
        let ghost keys = other.keys();
        proof {
            other.lemma_entries();
            lemma_first_entries(keys, 0, other@);
            lemma_merge_words_empty(before);
        }
        let n = other.len();
        let mut j: usize = 0;
        while j < n
            invariant
                self.wf(),
                other.wf(),
                keys == other.keys(),
                n == keys.len(),
                j <= n,
                words_fit(before, other@),
                self@ == merge_words(before, first_entries(keys, j as int, other@)),
            decreases n - j,
        {
            let word = other.word_at(j);
            let count = other.count_at(j);
            let mine = match self.get(word) {
                Some(c) => c,
                None => 0,
            };
            proof {
                other.lemma_entries();
                lemma_first_entries(keys, j as int, other@);
                assert(mine as nat == count_in(before, word@));
                assert(count_in(before, word@) + count_in(other@, word@) <= u64::MAX);
            }
            self.insert(slice_to_vec(word), mine + count);
            proof {
                assert(self@ =~= merge_words(before, first_entries(keys, j + 1, other@)));
            }
            j += 1;
        }
        proof {
            other.lemma_entries();
            lemma_first_entries(keys, n as int, other@);
        }
    }

    /// Whether the counts of `other` can be added to the counts of this
    /// table and every sum still fits in 64 bits.
    pub fn fits(&self, other: &WordFrequencyTable) -> (b: bool)
        requires
            self.wf(),
            other.wf(),
        ensures
            b == words_fit(self@, other@),
    {
        let ghost keys = other.keys();
        proof {
            other.lemma_entries();
            self.lemma_entries();
        }
        let n = other.len();
        let mut j: usize = 0;
        while j < n
            invariant
                self.wf(),
                other.wf(),
                keys == other.keys(),
                n == keys.len(),
                j <= n,
                forall|i: int|
                    0 <= i < j ==> count_in(self@, #[trigger] keys[i]) + count_in(other@, keys[i])
                        <= u64::MAX,
            decreases n - j,
        {
            let count = other.count_at(j);
            match self.get(other.word_at(j)) {
                Some(mine) => {
                    if mine > u64::MAX - count {
                        assert(!(count_in(self@, keys[j as int]) + count_in(other@, keys[j as int])
                            <= u64::MAX));
                        return false;
                    }
                },
                None => {},
            }
            j += 1;
        }
        proof {
            other.lemma_entries();
            self.lemma_entries();
            assert forall|w: Seq<u8>| #[trigger]
                count_in(self@, w) + count_in(other@, w) <= u64::MAX by {
                if other@.contains_key(w) {
                    let i = keys.index_of(w);
                    assert(keys[i] == w);
                }
            }
        }
        true
    }
}

/// Merging one more author of `other` into what the first `n` authors
/// were merged into gives what the first `n + 1` are merged into.
pub proof fn lemma_merge_next(before: AuthorCounts, other: AuthorCounts, keys: Seq<Seq<u8>>, n: int)
    requires
        lists(keys, other.dom()),
        0 <= n < keys.len(),
    ensures
        words_in(merge_tables(before, first_entries(keys, n, other)), keys[n]) == words_in(
            before,
            keys[n],
        ),
        merge_tables(before, first_entries(keys, n, other)).insert(
            keys[n],
            merge_words(words_in(before, keys[n]), other[keys[n]]),
        ) == merge_tables(before, first_entries(keys, n + 1, other)),
{
    let key = keys[n];
    let less = first_entries(keys, n, other);
    let more = first_entries(keys, n + 1, other);
    lemma_first_entries(keys, n, other);
    lemma_merge_words_empty(words_in(before, key));
    let now = merge_tables(before, less);
    let next = now.insert(key, merge_words(words_in(before, key), other[key]));
    let goal = merge_tables(before, more);
    assert forall|k: Seq<u8>| #[trigger] goal.contains_key(k) implies next.contains_key(k)
        && next[k] == goal[k] by {
        if k != key {
            assert(words_in(more, k) == words_in(less, k));
        }
    }
    assert(next =~= goal);
}

impl AuthorFrequencyTable {
    /// Adds the counts of one author's words to the counts that this table
    /// holds for the author.
    pub fn merge_author(&mut self, author: &[u8], words: &WordFrequencyTable)
        requires
            old(self).wf(),
            words.wf(),
            words_fit(words_in(old(self)@, author@), words@),
        ensures
            final(self).wf(),
            final(self)@ == old(self)@.insert(
                author@,
                merge_words(words_in(old(self)@, author@), words@),
            ),
    {
        let merged = match self.get(author) {
            Some(mine) => {
                let mut sum = mine.clone();
                sum.merge(words);
                sum
            },
            None => {
                proof {
                    lemma_merge_words_empty(words@);
                }
                words.clone()
            },
        };
        self.insert(slice_to_vec(author), merged);
    }

    /// Adds the counts of `other` to the counts of this table, author by
    /// author and word by word.
    pub fn merge(&mut self, other: &AuthorFrequencyTable)
        requires
            old(self).wf(),
            other.wf(),
            tables_fit(old(self)@, other@),
        ensures
            final(self).wf(),
            final(self)@ == merge_tables(old(self)@, other@),
    {
        let ghost before = self@;
        let ghost keys = other.keys();
        proof {
            other.lemma_entries();
            lemma_first_entries(keys, 0, other@);
            lemma_merge_empty(before);
        }
        let n = other.len();
        let mut j: usize = 0;
        while j < n
            invariant
                self.wf(),
                other.wf(),
                keys == other.keys(),
                n == keys.len(),
                j <= n,
                tables_fit(before, other@),
                self@ == merge_tables(before, first_entries(keys, j as int, other@)),
            decreases n - j,
        {
            let words = other.table_at(j);
            proof {
                other.lemma_entries();
                lemma_merge_next(before, other@, keys, j as int);
                assert(words_fit(words_in(before, keys[j as int]), words_in(other@, keys[j as int])));
            }
            self.merge_author(other.author_at(j), words);
            j += 1;
        }
        proof {
            other.lemma_entries();
            lemma_first_entries(keys, n as int, other@);
        }
    }

    /// Whether the counts of `other` can be added to the counts of this
    /// table and every sum still fits in 64 bits.
    pub fn fits(&self, other: &AuthorFrequencyTable) -> (b: bool)
        requires
            self.wf(),
            other.wf(),
        ensures
            b == tables_fit(self@, other@),
    {
        let ghost keys = other.keys();
        proof {
            other.lemma_entries();
        }
        let n = other.len();
        let mut j: usize = 0;
        while j < n
            invariant
                self.wf(),
                other.wf(),
                keys == other.keys(),
                n == keys.len(),
                j <= n,
                forall|i: int|
                    0 <= i < j ==> words_fit(
                        words_in(self@, #[trigger] keys[i]),
                        words_in(other@, keys[i]),
                    ),
            decreases n - j,
        {
            let words = other.table_at(j);
            match self.get(other.author_at(j)) {
                Some(mine) => {
                    if !mine.fits(words) {
                        assert(!words_fit(
                            words_in(self@, keys[j as int]),
                            words_in(other@, keys[j as int]),
                        ));
                        return false;
                    }
                },
                None => {
                    proof {
                        words.lemma_entries();
                        assert forall|w: Seq<u8>| #[trigger]
                            count_in(WordCounts::empty(), w) + count_in(words@, w)
                                <= u64::MAX by {}
                    }
                },
            }
            j += 1;
        }
        proof {
            other.lemma_entries();
            assert forall|k: Seq<u8>| #[trigger]
                words_fit(words_in(self@, k), words_in(other@, k)) by {
                if other@.contains_key(k) {
                    let i = keys.index_of(k);
                    assert(keys[i] == k);
                } else {
                    lemma_fit_with_none(self@, k);
                }
            }
        }
        true
    }
}

/// A table that is merged with none stays as it is.
pub proof fn lemma_merge_empty(a: AuthorCounts)
    ensures
        merge_tables(a, AuthorCounts::empty()) == a,
{
    let none = AuthorCounts::empty();
    assert forall|k: Seq<u8>| #[trigger] a.contains_key(k) implies merge_tables(a, none)[k]
        == a[k] by {
        lemma_merge_words_empty(a[k]);
    }
    assert(merge_tables(a, none) =~= a);
}

/// The words that a table holds for an author fit with no words, as long
/// as the table's own counts fit in 64 bits.
proof fn lemma_fit_with_none(a: AuthorCounts, author: Seq<u8>)
    requires
        forall|w: Seq<u8>| #[trigger] count_in(words_in(a, author), w) <= u64::MAX,
    ensures
        words_fit(words_in(a, author), WordCounts::empty()),
{
}

} // verus!
