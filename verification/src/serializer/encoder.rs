//! Writing a table to bytes.

use vstd::prelude::*;
use crate::order::sorted_keys;
use crate::serializer::feedback::FnFeedback;
use crate::serializer::format::{magic, CURRENT_VERSION};
use crate::serializer::integers::{be_bytes, push_be};
use crate::serializer::marker::{
    PAD, TAG_AUTHOR, TAG_AUTHOR_END, TAG_END, TAG_FREQ_U32, TAG_FREQ_U64, TAG_FREQ_U8,
};
use crate::table::{AuthorCounts, AuthorFrequencyTable, WordCounts, WordFrequencyTable};

verus! {

/// A marker: the tag and the pad byte.
pub open spec fn marker_bytes(tag: u8) -> Seq<u8> {
    seq![tag, PAD]
}

/// The bytes that spell a count, as few as its size allows: one byte up to
/// 255, four up to 4294967295, eight above.
pub open spec fn payload_bytes(count: nat) -> Seq<u8> {
    if count <= 0xff {
        be_bytes(count, 1)
    } else if count <= 0xffff_ffff {
        be_bytes(count, 4)
    } else {
        be_bytes(count, 8)
    }
}

/// The tag of the marker that follows a count.
pub open spec fn payload_tag(count: nat) -> u8 {
    if count <= 0xff {
        TAG_FREQ_U8
    } else if count <= 0xffff_ffff {
        TAG_FREQ_U32
    } else {
        TAG_FREQ_U64
    }
}

/// A word with its count: the word, the count and the marker of the count.
pub open spec fn word_bytes(word: Seq<u8>, count: nat) -> Seq<u8> {
    word + payload_bytes(count) + marker_bytes(payload_tag(count))
}

/// The words `keys` with their counts, one after the other.
pub open spec fn words_bytes(keys: Seq<Seq<u8>>, words: WordCounts) -> Seq<u8>
    decreases keys.len(),
{
    if keys.len() == 0 {
        Seq::<u8>::empty()
    } else {
        words_bytes(keys.drop_last(), words) + word_bytes(keys.last(), words[keys.last()])
    }
}

/// The record of an author: the identifier and its marker, the words in
/// increasing order, and the marker that closes the record.
pub open spec fn record_bytes(author: Seq<u8>, words: WordCounts) -> Seq<u8> {
    author + marker_bytes(TAG_AUTHOR) + words_bytes(sorted_keys(words.dom()), words)
        + marker_bytes(TAG_AUTHOR_END)
}

/// The records of the authors `keys`, one after the other.
pub open spec fn records_bytes(keys: Seq<Seq<u8>>, table: AuthorCounts) -> Seq<u8>
    decreases keys.len(),
{
    if keys.len() == 0 {
        Seq::<u8>::empty()
    } else {
        records_bytes(keys.drop_last(), table) + record_bytes(keys.last(), table[keys.last()])
    }
}

/// The number of word entries that the authors `keys` have together.
pub open spec fn entries_of(keys: Seq<Seq<u8>>, table: AuthorCounts) -> nat
    decreases keys.len(),
{
    if keys.len() == 0 {
        0
    } else {
        entries_of(keys.drop_last(), table) + table[keys.last()].dom().len()
    }
}

/// The number of word entries in a table, all authors together.
pub open spec fn word_total(table: AuthorCounts) -> nat {
    entries_of(sorted_keys(table.dom()), table)
}

/// The header: magic tag, version, author count and word count.
pub open spec fn header_bytes(authors: nat, words: nat) -> Seq<u8> {
    magic() + be_bytes(CURRENT_VERSION as nat, 4) + be_bytes(authors, 8) + be_bytes(words, 8)
}

/// The stream of records of a table: the authors in increasing order, then
/// the marker that ends the stream.
pub open spec fn stream_bytes(table: AuthorCounts) -> Seq<u8> {
    records_bytes(sorted_keys(table.dom()), table) + marker_bytes(TAG_END)
}

/// The container of a table: the header and the stream of records.
pub open spec fn container_bytes(table: AuthorCounts) -> Seq<u8> {
    header_bytes(table.dom().len(), word_total(table)) + stream_bytes(table)
}

/// Appends bytes to a buffer.
pub fn push_all(out: &mut Vec<u8>, bytes: &[u8])
    ensures
        final(out)@ == old(out)@ + bytes@,
{
    out.extend_from_slice(bytes);
    assert(out@ =~= old(out)@ + bytes@);
}

/// Appends a marker to a buffer.
pub fn push_marker(out: &mut Vec<u8>, tag: u8)
    ensures
        final(out)@ == old(out)@ + marker_bytes(tag),
{
    out.push(tag);
    out.push(PAD);
    assert(out@ =~= old(out)@ + marker_bytes(tag));
}

/// Appends a count and its marker to a buffer.
pub fn push_count(out: &mut Vec<u8>, count: u64)
    ensures
        final(out)@ == old(out)@ + payload_bytes(count as nat) + marker_bytes(
            payload_tag(count as nat),
        ),
{
    if count <= 255 {
        push_be(out, count, 1);
        push_marker(out, TAG_FREQ_U8);
    } else if count <= 0xffff_ffff {
        push_be(out, count, 4);
        push_marker(out, TAG_FREQ_U32);
    } else {
        push_be(out, count, 8);
        push_marker(out, TAG_FREQ_U64);
    }
}

/// Appends the record of one author to a buffer.
pub fn encode_record(out: &mut Vec<u8>, author: &[u8], words: &WordFrequencyTable)
    requires
        words.wf(),
    ensures
        final(out)@ == old(out)@ + record_bytes(author@, words@),
{
    push_all(out, author);
    push_marker(out, TAG_AUTHOR);
    let ghost start = out@;
    let ghost keys = words.keys();
    proof {
        words.lemma_entries();
    }
    let n = words.len();
    let mut i: usize = 0;
    while i < n
        invariant
            words.wf(),
            keys == words.keys(),
            n == keys.len(),
            i <= n,
            out@ == start + words_bytes(keys.take(i as int), words@),
        decreases n - i,
    {
        let ghost before = out@;
        push_all(out, words.word_at(i));
        push_count(out, words.count_at(i));
        proof {
            let head = keys.take(i + 1);
            assert(head.drop_last() =~= keys.take(i as int));
            assert(head.last() == keys[i as int]);
            assert(out@ =~= start + words_bytes(head, words@));
        }
        i += 1;
    }
    push_marker(out, TAG_AUTHOR_END);
    proof {
        assert(keys.take(n as int) =~= keys);
        assert(out@ =~= old(out)@ + record_bytes(author@, words@));
    }
}

/// Appends the header of a container to a buffer.
pub fn encode_header(out: &mut Vec<u8>, authors: u64, words: u64)
    ensures
        final(out)@ == old(out)@ + header_bytes(authors as nat, words as nat),
{
    out.push(114);
    out.push(97);
    out.push(103);
    out.push(101);
    out.push(103);
    out.push(117);
    out.push(110);
    assert(out@ =~= old(out)@ + magic());
    push_be(out, CURRENT_VERSION as u64, 4);
    push_be(out, authors, 8);
    push_be(out, words, 8);
    assert(out@ =~= old(out)@ + header_bytes(authors as nat, words as nat));
}

/// The number of word entries in a table, all authors together, unless it
/// is more than 64 bits can hold.
pub fn count_words(data: &AuthorFrequencyTable) -> (r: Option<u64>)
    requires
        data.wf(),
    ensures
        match r {
            Some(total) => total as nat == word_total(data@),
            None => word_total(data@) > u64::MAX,
        },
{
    let ghost keys = data.keys();
    proof {
        data.lemma_entries();
    }
    let n = data.len();
    let mut total: u64 = 0;
    let mut i: usize = 0;
    while i < n
        invariant
            data.wf(),
            keys == data.keys(),
            n == keys.len(),
            i <= n,
            total as nat == entries_of(keys.take(i as int), data@),
        decreases n - i,
    {
        let words = data.table_at(i).len() as u64;
        proof {
            let head = keys.take(i + 1);
            assert(head.drop_last() =~= keys.take(i as int));
            assert(head.last() == keys[i as int]);
            assert(keys.take(n as int) =~= keys);
            lemma_entries_grow(keys, data@, i + 1, n as int);
            data.lemma_entries();
            assert(entries_of(head, data@) == total as nat + words as nat);
        }
        if words > u64::MAX - total {
            return None;
        }
        total = total + words;
        i += 1;
    }
    assert(keys.take(n as int) =~= keys);
    Some(total)
}

/// The entries of the first authors are no more than those of more authors.
pub proof fn lemma_entries_grow(keys: Seq<Seq<u8>>, table: AuthorCounts, i: int, j: int)
    requires
        0 <= i <= j <= keys.len(),
    ensures
        entries_of(keys.take(i), table) <= entries_of(keys.take(j), table),
    decreases j - i,
{
    if i < j {
        lemma_entries_grow(keys, table, i, j - 1);
        assert(keys.take(j).drop_last() =~= keys.take(j - 1));
    }
}

/// What the encoder may tell its observer of a table of so many authors:
/// that it starts, the number of authors, and the number of authors written
/// so far, which is a multiple of a thousand.
pub open spec fn encoder_tells(authors: nat, event: FnFeedback) -> bool {
    match event {
        FnFeedback::Message(text) => text@ == "Saving: Writing authors.."@,
        FnFeedback::Total(total) => total == authors,
        FnFeedback::Progress(done) => done % 1000 == 0 && 0 < done <= authors,
        FnFeedback::Tick => false,
    }
}

/// Writes the container of a table to the end of `writer`: the header, the
/// record of each author in increasing order, and the marker that ends the
/// stream. The observer hears of every thousandth author.
pub fn serialize_with_writer(
    data: &AuthorFrequencyTable,
    writer: &mut Vec<u8>,
    mut fn_feedback: impl FnMut(FnFeedback) -> (),
)
    requires
        data.wf(),
        word_total(data@) <= u64::MAX,
        forall|e: FnFeedback|
            encoder_tells(data@.dom().len(), e) ==> #[trigger] call_requires(fn_feedback, (e,)),
    ensures
        final(writer)@ == old(writer)@ + container_bytes(data@),
{
    let ghost keys = data.keys();
    proof {
        data.lemma_entries();
    }
    let n = data.len();

    fn_feedback(FnFeedback::Message("Saving: Writing authors..".to_owned()));
    fn_feedback(FnFeedback::Total(n as u64));

    let word_count = match count_words(data) {
        Some(total) => total,
        None => 0,
    };
    encode_header(writer, n as u64, word_count);
    let ghost start = writer@;

    let mut i: usize = 0;
    while i < n
        invariant
            forall|e: FnFeedback|
                encoder_tells(n as nat, e) ==> #[trigger] call_requires(fn_feedback, (e,)),
            data.wf(),
            keys == data.keys(),
            n == keys.len(),
            i <= n,
            writer@ == start + records_bytes(keys.take(i as int), data@),
        decreases n - i,
    {
        encode_record(writer, data.author_at(i), data.table_at(i));
        proof {
            let head = keys.take(i + 1);
            assert(head.drop_last() =~= keys.take(i as int));
            assert(head.last() == keys[i as int]);
            assert(writer@ =~= start + records_bytes(head, data@));
        }
        i += 1;
        if i % 1000 == 0 {
            fn_feedback(FnFeedback::Progress(i as u64));
        }
    }
    push_marker(writer, TAG_END);
    proof {
        assert(keys.take(n as int) =~= keys);
        assert(writer@ =~= old(writer)@ + container_bytes(data@));
    }
}

} // verus!
