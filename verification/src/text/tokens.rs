//! From text to words.

use vstd::prelude::*;
use vstd::slice::slice_to_vec;
use vstd::utf8::encode_utf8;
use crate::order::key_seq;
use crate::table::{WordCounts, WordFrequencyTable};

verus! {

/// Whether a character is a letter or a digit, as `char::is_alphanumeric`
/// tells it.
pub uninterp spec fn alphanumeric(c: char) -> bool;

/// Whether a character is white space, as `char::is_whitespace` tells it.
pub uninterp spec fn whitespace(c: char) -> bool;

/// The text in lower case, as `str::to_lowercase` gives it.
pub uninterp spec fn lowercase(text: Seq<char>) -> Seq<char>;

/// The pieces of the text between runs of white space, as
/// `str::split_whitespace` gives them.
pub uninterp spec fn whitespace_split(text: Seq<char>) -> Seq<Seq<char>>;

/// The text without white space at its ends, as `str::trim` gives it.
pub uninterp spec fn trimmed(text: Seq<char>) -> Seq<char>;

/// Calls `char::is_alphanumeric`. The contract names the answer and claims
/// nothing else of it.
#[verifier::external_body]
fn is_alphanumeric(c: char) -> (b: bool)
    ensures
        b == alphanumeric(c),
{
    c.is_alphanumeric()
}

/// Calls `char::is_whitespace`. The contract names the answer and claims
/// nothing else of it.
#[verifier::external_body]
fn is_whitespace(c: char) -> (b: bool)
    ensures
        b == whitespace(c),
{
    c.is_whitespace()
}

/// Calls `String::push`, which appends one character to the string.
#[verifier::external_body]
fn push_char(text: &mut String, c: char)
    ensures
        final(text)@ == old(text)@.push(c),
{
    text.push(c)
}

/// Calls `str::to_lowercase`. The contract names the result and claims
/// nothing else of it.
#[verifier::external_body]
fn to_lowercase(text: &str) -> (lower: String)
    ensures
        lower@ == lowercase(text@),
{
    text.to_lowercase()
}

/// Calls `str::split_whitespace` and hands out the pieces, each as a string
/// of its own. The contract names the pieces and claims nothing else of
/// them.
#[verifier::external_body]
fn split_whitespace(text: &str) -> (pieces: Vec<String>)
    ensures
        pieces@.map_values(|piece: String| piece@) == whitespace_split(text@),
{
    text.split_whitespace().map(String::from).collect()
}

/// Calls `str::trim`. The contract names the result and claims nothing
/// else of it.
#[verifier::external_body]
fn trim<'a>(text: &'a str) -> (inner: &'a str)
    ensures
        inner@ == trimmed(text@),
{
    text.trim()
}

/// A character that is kept: a letter, a digit or white space.
pub open spec fn is_kept(c: char) -> bool {
    alphanumeric(c) || whitespace(c)
}

/// The words of a text, in their order: of the letters, digits and white
/// space of the text, put in lower case, the pieces between white space,
/// each trimmed and written as bytes.
pub open spec fn words_of(text: Seq<char>) -> Seq<Seq<u8>> {
    whitespace_split(lowercase(text.filter(|c: char| is_kept(c)))).map_values(
        |piece: Seq<char>| encode_utf8(trimmed(piece)),
    )
}

/// How often a word stands in a sequence of words.
pub open spec fn occurrences(words: Seq<Seq<u8>>, word: Seq<u8>) -> nat
    decreases words.len(),
{
    if words.len() == 0 {
        0
    } else {
        occurrences(words.drop_last(), word) + if words.last() == word {
            1nat
        } else {
            0nat
        }
    }
}

/// Every word of the sequence but the empty one, with the number of times
/// it stands there.
pub open spec fn histogram(words: Seq<Seq<u8>>) -> WordCounts {
    Map::new(
        |w: Seq<u8>| w.len() > 0 && words.contains(w),
        |w: Seq<u8>| occurrences(words, w),
    )
}

/// A word stands in a sequence no more often than the sequence is long,
/// and at least once if it stands there at all.
pub proof fn lemma_occurrences(words: Seq<Seq<u8>>, word: Seq<u8>)
    ensures
        occurrences(words, word) <= words.len(),
        words.contains(word) <==> occurrences(words, word) > 0,
    decreases words.len(),
{
    if words.len() > 0 {
        let head = words.drop_last();
        lemma_occurrences(head, word);
        if head.contains(word) {
            let i = head.index_of(word);
            assert(words[i] == word);
        }
        if words.last() == word {
            assert(words[words.len() - 1] == word);
        }
        if words.contains(word) {
            let i = words.index_of(word);
            if i < head.len() {
                assert(head[i] == word);
            }
        }
    }
}

/// The letters, digits and white space of a text, in their order.
pub fn keep_words(text: &str) -> (kept: String)
    ensures
        kept@ == text@.filter(|c: char| is_kept(c)),
{
    let ghost pred = |c: char| is_kept(c);
    let mut kept = String::new();
    proof {
        reveal(Seq::filter);
        assert(text@.take(0) =~= Seq::<char>::empty());
    }
    for c in it: text.chars()
        invariant
            it.seq() == text@,
            forall|c: char| pred(c) == is_kept(c),
            kept@ == text@.take(it.index()).filter(pred),
    {
        proof {
            reveal(Seq::filter);
            let i = it.index();
            assert(c == text@[i]);
            let more = text@.take(i + 1);
            assert(more.drop_last() =~= text@.take(i));
            assert(more.last() == c);
            assert(more.len() > 0);
            assert(more.filter(pred) == if pred(more.last()) {
                more.drop_last().filter(pred).push(more.last())
            } else {
                more.drop_last().filter(pred)
            });
        }
        let ghost before = kept@;
        if is_alphanumeric(c) || is_whitespace(c) {
            push_char(&mut kept, c);
            assert(is_kept(c));
        } else {
            assert(!is_kept(c));
        }
        assert(before == text@.take(it.index()).filter(pred));
        assert(kept@ == text@.take(it.index() + 1).filter(pred));
    }
    assert(text@.take(text@.len() as int) =~= text@);
    kept
}

/// Counts the words of a sequence: every word but the empty one, with the
/// number of times it stands there.
pub fn tally_words(words: &Vec<Vec<u8>>) -> (table: WordFrequencyTable)
    ensures
        table.wf(),
        table@ == histogram(key_seq(words@)),
{
    let ghost all = key_seq(words@);
    let mut table = WordFrequencyTable::new();
    let mut i: usize = 0;
    proof {
        assert(all.take(0) =~= Seq::<Seq<u8>>::empty());
        assert(table@ =~= histogram(all.take(0)));
    }
    while i < words.len()
        invariant
            i <= words.len(),
            all == key_seq(words@),
            table.wf(),
            table@ == histogram(all.take(i as int)),
        decreases words.len() - i,
    {
        let word = words[i].as_slice();
        proof {
            let before = all.take(i as int);
            let after = all.take(i + 1);
            assert(after.drop_last() =~= before);
            assert(after.last() == word@);
            lemma_occurrences(before, word@);
            assert forall|w: Seq<u8>| after.contains(w) <==> (before.contains(w) || w == word@) by {
                lemma_occurrences(before, w);
                lemma_occurrences(after, w);
            }
        }
        if word.len() > 0 {
            let seen = match table.get(word) {
                Some(count) => count,
                None => 0,
            };
            table.insert(slice_to_vec(word), seen + 1);
        }
        proof {
            assert(table@ =~= histogram(all.take(i + 1)));
        }
        i += 1;
    }
    assert(all.take(i as int) =~= all);
    table
}

/// The bytes of a piece of text without the white space at its ends.
pub fn word_key(piece: &str) -> (key: Vec<u8>)
    ensures
        key@ == encode_utf8(trimmed(piece@)),
{
    slice_to_vec(trim(piece).as_bytes())
}

/// The words of a text, in their order, as bytes.
pub fn split_words(text: &str) -> (words: Vec<Vec<u8>>)
    ensures
        key_seq(words@) == words_of(text@),
{
    let kept = keep_words(text);
    let lower = to_lowercase(kept.as_str());
    let pieces = split_whitespace(lower.as_str());
    let ghost expected = whitespace_split(lower@);
    let mut words: Vec<Vec<u8>> = Vec::new();
    let mut i: usize = 0;
    assert(pieces@.map_values(|piece: String| piece@).len() == pieces@.len());
    while i < pieces.len()
        invariant
            i <= pieces.len(),
            pieces@.map_values(|piece: String| piece@) == expected,
            words@.len() == i,
            forall|j: int|
                0 <= j < i ==> (#[trigger] words@[j])@ == encode_utf8(trimmed(expected[j])),
        decreases pieces.len() - i,
    {
        assert(pieces@.map_values(|piece: String| piece@)[i as int] == pieces@[i as int]@);
        words.push(word_key(pieces[i].as_str()));
        i += 1;
    }
    assert(key_seq(words@) =~= words_of(text@));
    words
}

} // verus!
