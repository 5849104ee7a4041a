//! The frequency tables: a word table counts the words of one author, an
//! author table holds one word table per author. Both keep their keys sorted.

use vstd::prelude::*;
use crate::order::{
    is_increasing, key_seq, lemma_sorted_keys, lists, precedes, search, sorted_keys,
};
use crate::pairing::{
    lemma_pairing_at, lemma_pairing_empty, lemma_pairing_insert, lemma_pairing_len,
    lemma_pairing_update, lemma_place_absent, pairing,
};

verus! {

/// What a word table stands for: each word with its count.
pub type WordCounts = Map<Seq<u8>, nat>;

/// What an author table stands for: each author with the counts of their words.
pub type AuthorCounts = Map<Seq<u8>, Map<Seq<u8>, nat>>;

/// The words of one author, each with the number of times it was used.
#[derive(Debug, PartialEq, Eq)]
pub struct WordFrequencyTable {
    words: Vec<Vec<u8>>,
    counts: Vec<u64>,
}

impl View for WordFrequencyTable {
    type V = WordCounts;

    open spec fn view(&self) -> WordCounts {
        pairing(self.keys(), self.values())
    }
}

impl WordFrequencyTable {
    /// The words, in the order in which the table keeps them.
    pub closed spec fn keys(&self) -> Seq<Seq<u8>> {
        key_seq(self.words@)
    }

    /// The counts, each at the position of its word.
    pub closed spec fn values(&self) -> Seq<nat> {
        self.counts@.map_values(|c: u64| c as nat)
    }

    /// The words are sorted, none of them is empty and none occurs twice;
    /// every count fits in 64 bits.
    pub open spec fn wf(&self) -> bool {
        &&& self.keys().len() == self.values().len()
        &&& is_increasing(self.keys())
        &&& forall|i: int| 0 <= i < self.keys().len() ==> (#[trigger] self.keys()[i]).len() > 0
        &&& forall|i: int| 0 <= i < self.values().len() ==> #[trigger] self.values()[i] <= u64::MAX
    }

    /// In a well-formed table every word is non-empty and every count fits in
    /// 64 bits, and there are as many entries as there are keys.
    pub proof fn lemma_entries(&self)
        requires
            self.wf(),
        ensures
            self@.dom().finite(),
            self@.dom().len() == self.keys().len(),
            forall|w: Seq<u8>| self@.contains_key(w) <==> self.keys().contains(w),
            lists(self.keys(), self@.dom()),
            sorted_keys(self@.dom()) == self.keys(),
            forall|w: Seq<u8>| #[trigger] self@.contains_key(w) ==> w.len() > 0 && self@[w] <= u64::MAX,
            forall|i: int|
                0 <= i < self.keys().len() ==> self@.contains_key(#[trigger] self.keys()[i])
                    && self@[self.keys()[i]] == self.values()[i],
    {
        lemma_pairing_len(self.keys(), self.values());
        lemma_sorted_keys(self.keys(), self@.dom());
        assert forall|w: Seq<u8>| #[trigger] self@.contains_key(w) implies w.len() > 0 && self@[w]
            <= u64::MAX by {
            let i = self.keys().index_of(w);
            lemma_pairing_at(self.keys(), self.values(), i);
            assert(self.keys()[i].len() > 0);
            assert(self.values()[i] <= u64::MAX);
        }
        assert forall|i: int| 0 <= i < self.keys().len() implies self@.contains_key(
            #[trigger] self.keys()[i],
        ) && self@[self.keys()[i]] == self.values()[i] by {
            lemma_pairing_at(self.keys(), self.values(), i);
        }
    }

    /// A table without entries.
    pub fn new() -> (r: Self)
        ensures
            r.wf(),
            r@ == WordCounts::empty(),
            r.keys().len() == 0,
    {
        let r = WordFrequencyTable { words: Vec::new(), counts: Vec::new() };
        proof {
            assert(r.keys() =~= Seq::<Seq<u8>>::empty());
            assert(r.values() =~= Seq::<nat>::empty());
            lemma_pairing_empty::<nat>();
        }
        r
    }

    /// The number of words.
    pub fn len(&self) -> (n: usize)
        requires
            self.wf(),
        ensures
            n == self.keys().len(),
            n == self@.dom().len(),
    {
        proof {
            self.lemma_entries();
        }
        self.words.len()
    }

    /// Whether the table holds no word.
    pub fn is_empty(&self) -> (b: bool)
        requires
            self.wf(),
        ensures
            b == (self@.dom().len() == 0),
    {
        self.len() == 0
    }

    /// The word at position `i` of the sorted order.
    pub fn word_at(&self, i: usize) -> (w: &[u8])
        requires
            self.wf(),
            i < self.keys().len(),
        ensures
            w@ == self.keys()[i as int],
            w@ == sorted_keys(self@.dom())[i as int],
    {
        proof {
            self.lemma_entries();
        }
        self.words[i].as_slice()
    }

    /// The count of the word at position `i` of the sorted order.
    pub fn count_at(&self, i: usize) -> (c: u64)
        requires
            self.wf(),
            i < self.keys().len(),
        ensures
            c as nat == self.values()[i as int],
            self@.contains_key(self.keys()[i as int]),
            self@[self.keys()[i as int]] == c as nat,
    {
        proof {
            lemma_pairing_at(self.keys(), self.values(), i as int);
        }
        self.counts[i]
    }

    /// The count of `word`, if the table holds it.
    pub fn get(&self, word: &[u8]) -> (r: Option<u64>)
        requires
            self.wf(),
        ensures
            match r {
                Some(c) => self@.contains_key(word@) && self@[word@] == c as nat,
                None => !self@.contains_key(word@),
            },
    {
        let (found, pos) = search(&self.words, word);
        if found {
            proof {
                lemma_pairing_at(self.keys(), self.values(), pos as int);
            }
            Some(self.counts[pos])
        } else {
            proof {
                lemma_place_absent(self.keys(), self.values(), word@, pos as int);
            }
            None
        }
    }

    /// Sets the count of `word`, whether or not the table held the word
    /// before, and returns the count it had.
    pub fn insert(&mut self, word: Vec<u8>, count: u64) -> (previous: Option<u64>)
        requires
            old(self).wf(),
            word@.len() > 0,
        ensures
            final(self).wf(),
            final(self)@ == old(self)@.insert(word@, count as nat),
            match previous {
                Some(c) => old(self)@.contains_key(word@) && old(self)@[word@] == c as nat,
                None => !old(self)@.contains_key(word@),
            },
    {
        let ghost keys = self.keys();
        let ghost values = self.values();
        let (found, pos) = search(&self.words, word.as_slice());
        if found {
            let previous = self.counts[pos];
            self.counts.set(pos, count);
            proof {
                lemma_pairing_at(keys, values, pos as int);
                lemma_pairing_update(keys, values, pos as int, count as nat);
                assert(self.values() =~= values.update(pos as int, count as nat));
            }
            Some(previous)
        } else {
            self.words.insert(pos, word);
            self.counts.insert(pos, count);
            proof {
                lemma_place_absent(keys, values, word@, pos as int);
                lemma_pairing_insert(keys, values, pos as int, word@, count as nat);
                assert(self.keys() =~= keys.insert(pos as int, word@));
                assert(self.values() =~= values.insert(pos as int, count as nat));
            }
            None
        }
    }
}

impl Clone for WordFrequencyTable {
    fn clone(&self) -> (r: Self)
        ensures
            r.keys() == self.keys(),
            r.values() == self.values(),
            r@ == self@,
            self.wf() ==> r.wf(),
    {
        let r = WordFrequencyTable { words: self.words.clone(), counts: self.counts.clone() };
        proof {
            assert(r.keys() =~= self.keys());
            assert(r.values() =~= self.values());
        }
        r
    }
}

/// One word table for each author.
#[derive(Debug, PartialEq, Eq)]
pub struct AuthorFrequencyTable {
    authors: Vec<Vec<u8>>,
    tables: Vec<WordFrequencyTable>,
}

impl View for AuthorFrequencyTable {
    type V = AuthorCounts;

    open spec fn view(&self) -> AuthorCounts {
        pairing(self.keys(), self.values())
    }
}

impl AuthorFrequencyTable {
    /// The authors, in the order in which the table keeps them.
    pub closed spec fn keys(&self) -> Seq<Seq<u8>> {
        key_seq(self.authors@)
    }

    /// The word tables, each at the position of its author.
    pub closed spec fn parts(&self) -> Seq<WordFrequencyTable> {
        self.tables@
    }

    /// What the word tables stand for, each at the position of its author.
    pub open spec fn values(&self) -> Seq<WordCounts> {
        self.parts().map_values(|t: WordFrequencyTable| t@)
    }

    /// The authors are sorted and none occurs twice; every word table is
    /// well-formed.
    pub open spec fn wf(&self) -> bool {
        &&& self.keys().len() == self.parts().len()
        &&& is_increasing(self.keys())
        &&& forall|i: int| 0 <= i < self.parts().len() ==> (#[trigger] self.parts()[i]).wf()
    }

    /// In a well-formed table there are as many entries as there are keys, and
    /// the author at a position is paired with the word table there.
    pub proof fn lemma_entries(&self)
        requires
            self.wf(),
        ensures
            self@.dom().finite(),
            self@.dom().len() == self.keys().len(),
            forall|a: Seq<u8>| self@.contains_key(a) <==> self.keys().contains(a),
            lists(self.keys(), self@.dom()),
            sorted_keys(self@.dom()) == self.keys(),
            forall|i: int|
                0 <= i < self.keys().len() ==> self@.contains_key(#[trigger] self.keys()[i])
                    && self@[self.keys()[i]] == self.parts()[i]@,
    {
        lemma_pairing_len(self.keys(), self.values());
        lemma_sorted_keys(self.keys(), self@.dom());
        assert forall|i: int| 0 <= i < self.keys().len() implies self@.contains_key(
            #[trigger] self.keys()[i],
        ) && self@[self.keys()[i]] == self.parts()[i]@ by {
            lemma_pairing_at(self.keys(), self.values(), i);
        }
    }

    /// A table without authors.
    pub fn new() -> (r: Self)
        ensures
            r.wf(),
            r@ == AuthorCounts::empty(),
            r.keys().len() == 0,
    {
        let r = AuthorFrequencyTable { authors: Vec::new(), tables: Vec::new() };
        proof {
            assert(r.keys() =~= Seq::<Seq<u8>>::empty());
            assert(r.values() =~= Seq::<WordCounts>::empty());
            lemma_pairing_empty::<WordCounts>();
        }
        r
    }

    /// The number of authors.
    pub fn len(&self) -> (n: usize)
        requires
            self.wf(),
        ensures
            n == self.keys().len(),
            n == self@.dom().len(),
    {
        proof {
            self.lemma_entries();
        }
        self.authors.len()
    }

    /// Whether the table holds no author.
    pub fn is_empty(&self) -> (b: bool)
        requires
            self.wf(),
        ensures
            b == (self@.dom().len() == 0),
    {
        self.len() == 0
    }

    /// The author at position `i` of the sorted order.
    pub fn author_at(&self, i: usize) -> (a: &[u8])
        requires
            self.wf(),
            i < self.keys().len(),
        ensures
            a@ == self.keys()[i as int],
            a@ == sorted_keys(self@.dom())[i as int],
    {
        proof {
            self.lemma_entries();
        }
        self.authors[i].as_slice()
    }

    /// The word table of the author at position `i` of the sorted order.
    pub fn table_at(&self, i: usize) -> (t: &WordFrequencyTable)
        requires
            self.wf(),
            i < self.keys().len(),
        ensures
            *t == self.parts()[i as int],
            t.wf(),
            self@.contains_key(self.keys()[i as int]),
            self@[self.keys()[i as int]] == t@,
    {
        proof {
            lemma_pairing_at(self.keys(), self.values(), i as int);
        }
        &self.tables[i]
    }

    /// The word table of `author`, if the table holds the author.
    pub fn get(&self, author: &[u8]) -> (r: Option<&WordFrequencyTable>)
        requires
            self.wf(),
        ensures
            match r {
                Some(t) => self@.contains_key(author@) && self@[author@] == t@ && t.wf(),
                None => !self@.contains_key(author@),
            },
    {
        let (found, pos) = search(&self.authors, author);
        if found {
            proof {
                lemma_pairing_at(self.keys(), self.values(), pos as int);
            }
            Some(&self.tables[pos])
        } else {
            proof {
                lemma_place_absent(self.keys(), self.values(), author@, pos as int);
            }
            None
        }
    }

    /// The part of the table that holds the authors at the positions from
    /// `from` up to, and without, `to` of the sorted order.
    pub fn slice(&self, from: usize, to: usize) -> (part: AuthorFrequencyTable)
        requires
            self.wf(),
            from <= to <= self.keys().len(),
        ensures
            part.wf(),
            part.keys() == self.keys().subrange(from as int, to as int),
            part@ == self@.restrict(self.keys().subrange(from as int, to as int).to_set()),
    {
        let ghost wanted = self.keys().subrange(from as int, to as int);
        let mut part = AuthorFrequencyTable { authors: Vec::new(), tables: Vec::new() };
        let mut i: usize = from;
        while i < to
            invariant
                self.wf(),
                from <= i <= to <= self.keys().len(),
                wanted == self.keys().subrange(from as int, to as int),
                part.authors@.len() == i - from,
                part.tables@.len() == i - from,
                forall|j: int|
                    0 <= j < i - from ==> (#[trigger] part.authors@[j])@ == self.authors@[from + j]@,
                forall|j: int|
                    0 <= j < i - from ==> (#[trigger] part.tables@[j])@ == self.tables@[from + j]@
                        && part.tables@[j].wf(),
            decreases to - i,
        {
            assert(self.parts()[i as int].wf());
            part.authors.push(self.authors[i].clone());
            part.tables.push(self.tables[i].clone());
            i += 1;
        }
        proof {
            assert(part.keys() =~= wanted);
            assert forall|a: int, b: int| 0 <= a < b < wanted.len() implies precedes(
                #[trigger] wanted[a],
                #[trigger] wanted[b],
            ) by {
                assert(wanted[a] == self.keys()[from + a]);
                assert(wanted[b] == self.keys()[from + b]);
            }
            let cut = self@.restrict(wanted.to_set());
            assert forall|k: Seq<u8>| #[trigger] part@.contains_key(k) implies cut.contains_key(k)
                && cut[k] == part@[k] by {
                let j = part.keys().index_of(k);
                lemma_pairing_at(part.keys(), part.values(), j);
                lemma_pairing_at(self.keys(), self.values(), from + j);
                assert(wanted.contains(k));
            }
            assert forall|k: Seq<u8>| #[trigger] cut.contains_key(k) implies part@.contains_key(k) by {
                assert(wanted.contains(k));
            }
            assert(part@ =~= cut);
        }
        part
    }

    /// The table cut into parts of `size` authors each, in sorted order; the
    /// last part holds the authors that are left, which may be fewer.
    pub fn chunks(&self, size: usize) -> (parts: Vec<AuthorFrequencyTable>)
        requires
            self.wf(),
            size > 0,
        ensures
            parts@.len() * size >= self.keys().len() > (parts@.len() - 1) * size,
            forall|i: int| 0 <= i < parts@.len() ==> self.is_chunk(#[trigger] parts@[i], i, size),
    {
        let n = self.authors.len();
        let mut parts: Vec<AuthorFrequencyTable> = Vec::new();
        let mut from: usize = 0;
        proof {
            assert(0 * size == 0 && (0 - 1) * size < 0) by (nonlinear_arith)
                requires
                    size > 0,
            ;
        }
        while from < n
            invariant
                self.wf(),
                size > 0,
                n == self.keys().len(),
                from <= n,
                from < n ==> from == parts@.len() * size,
                from == n ==> parts@.len() * size >= n > (parts@.len() - 1) * size,
                forall|i: int| 0 <= i < parts@.len() ==> self.is_chunk(#[trigger] parts@[i], i, size),
            decreases n - from,
        {
            let to = if size < n - from {
                from + size
            } else {
                n
            };
            let ghost count = parts@.len() as int;
            proof {
                assert((count + 1) * size == count * size + size && (count + 1 - 1) * size == count
                    * size) by (nonlinear_arith);
            }
            parts.push(self.slice(from, to));
            from = to;
        }
        parts
    }

    /// `part` is part number `i` of this table cut into parts of `size`
    /// authors: it holds the authors at the positions from `i * size` up
    /// to, and without, `i * size + size`, as far as there are any.
    pub open spec fn is_chunk(&self, part: AuthorFrequencyTable, i: int, size: usize) -> bool {
        let from = i * size;
        let to = if from + size < self.keys().len() {
            from + size
        } else {
            self.keys().len() as int
        };
        &&& 0 <= from <= to
        &&& part.wf()
        &&& part.keys() == self.keys().subrange(from, to)
        &&& part@ == self@.restrict(self.keys().subrange(from, to).to_set())
    }

    /// Gives `author` the word table `table`, in place of the one the author
    /// had, if any.
    pub fn insert(&mut self, author: Vec<u8>, table: WordFrequencyTable)
        requires
            old(self).wf(),
            table.wf(),
        ensures
            final(self).wf(),
            final(self)@ == old(self)@.insert(author@, table@),
    {
        let ghost keys = self.keys();
        let ghost values = self.values();
        let ghost parts = self.parts();
        let (found, pos) = search(&self.authors, author.as_slice());
        if found {
            self.tables.set(pos, table);
            proof {
                lemma_pairing_update(keys, values, pos as int, table@);
                assert(self.parts() =~= parts.update(pos as int, table));
                assert(self.values() =~= values.update(pos as int, table@));
            }
        } else {
            self.authors.insert(pos, author);
            self.tables.insert(pos, table);
            proof {
                lemma_pairing_insert(keys, values, pos as int, author@, table@);
                assert(self.keys() =~= keys.insert(pos as int, author@));
                assert(self.parts() =~= parts.insert(pos as int, table));
                assert(self.values() =~= values.insert(pos as int, table@));
            }
        }
    }
}

impl Clone for AuthorFrequencyTable {
    fn clone(&self) -> (r: Self)
        ensures
            r.keys() == self.keys(),
            r.values() == self.values(),
            r@ == self@,
            self.wf() ==> r.wf(),
    {
        let r = AuthorFrequencyTable { authors: self.authors.clone(), tables: self.tables.clone() };
        proof {
            assert(r.keys() =~= self.keys());
            assert forall|i: int| 0 <= i < self.tables@.len() implies (#[trigger] r.tables@[i])@
                == self.tables@[i]@ && (self.tables@[i].wf() ==> r.tables@[i].wf()) by {
                assert(cloned::<WordFrequencyTable>(self.tables@[i], r.tables@[i]));
            }
            assert(r.values() =~= self.values());
        }
        r
    }
}

} // verus!
