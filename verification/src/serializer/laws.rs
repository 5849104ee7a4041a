//! What holds of the codec as a whole.

use vstd::prelude::*;
use crate::merge::lemma_first_entries;
use crate::serializer::decoder::deserialized;
use crate::serializer::encoder::{container_bytes, header_bytes, stream_bytes, word_total};
use crate::serializer::extractor::selected;
use crate::serializer::format::{
    has_magic, magic, RGFileFormat, CURRENT_VERSION, HEADER_LEN, MIN_LEN,
};
use crate::serializer::integers::{
    be_bytes, lemma_be_bytes_len, lemma_be_value_of_bytes, lemma_pow256_widths, pow256,
};
use crate::serializer::noise::{lemma_scan_noise_free, noise_free, table_noise_free};
use crate::serializer::scanner::{decoded, extracted, first_of, is_first_of, scan, table_of, Record};
use crate::serializer::stream::{
    clean_table, lemma_first_of_records, lemma_scan_stream, lemma_table_of_records, listed,
    records_of, words_listed,
};
use crate::table::{AuthorCounts, AuthorFrequencyTable, WordCounts};

verus! {

/// What a table holds for an author, if it holds the author.
pub open spec fn lookup(table: AuthorCounts, author: Seq<u8>) -> Option<WordCounts> {
    if table.contains_key(author) {
        Some(table[author])
    } else {
        None
    }
}

/// The words of every author of a well-formed table can be listed in
/// increasing order.
pub proof fn lemma_table_listed(table: AuthorFrequencyTable)
    requires
        table.wf(),
    ensures
        listed(table@),
        words_listed(table@),
{
    table.lemma_entries();
    assert forall|a: Seq<u8>| #[trigger] table@.contains_key(a) implies listed(table@[a]) by {
        let i = table.keys().index_of(a);
        assert(table.keys()[i] == a);
        table.parts()[i].lemma_entries();
    }
}

/// The header is read back as it was written: a container is recognised as
/// the current revision, with the counts that its header was given, and its
/// stream of records begins behind the header.
pub proof fn lemma_header_read_back(authors: nat, words: nat, stream: Seq<u8>)
    requires
        authors <= u64::MAX,
        words <= u64::MAX,
    ensures
        header_bytes(authors, words).len() == HEADER_LEN,
        (header_bytes(authors, words) + stream).skip(HEADER_LEN as int) == stream,
        has_magic(header_bytes(authors, words) + stream),
        RGFileFormat::of_buf(header_bytes(authors, words) + stream) == RGFileFormat::Nov2022A(
            authors as u64,
            words as u64,
        ),
{
    let header = header_bytes(authors, words);
    let data = header + stream;
    lemma_be_bytes_len(CURRENT_VERSION as nat, 4);
    lemma_be_bytes_len(authors, 8);
    lemma_be_bytes_len(words, 8);
    lemma_be_value_of_bytes(CURRENT_VERSION as nat, 4);
    lemma_be_value_of_bytes(authors, 8);
    lemma_be_value_of_bytes(words, 8);
    lemma_pow256_widths();
    vstd::arithmetic::div_mod::lemma_small_mod(CURRENT_VERSION as nat, pow256(4));
    vstd::arithmetic::div_mod::lemma_small_mod(authors, pow256(8));
    vstd::arithmetic::div_mod::lemma_small_mod(words, pow256(8));
    assert(data.skip(HEADER_LEN as int) =~= stream);
    assert(data.subrange(0, 7) =~= magic());
    assert(data.subrange(7, 11) =~= be_bytes(CURRENT_VERSION as nat, 4));
    assert(data.subrange(11, 19) =~= be_bytes(authors, 8));
    assert(data.subrange(19, 27) =~= be_bytes(words, 8));
}

/// A container is read as the stream of records behind its header,
/// whatever counts the header holds.
pub proof fn lemma_container_is_stream(table: AuthorCounts, author: Seq<u8>)
    ensures
        deserialized(container_bytes(table)) == decoded(stream_bytes(table)),
        selected(container_bytes(table), author) == extracted(stream_bytes(table), author),
{
    let authors = table.dom().len();
    let words = word_total(table);
    let header = header_bytes(authors, words);
    let stream = stream_bytes(table);
    let data = header + stream;
    lemma_be_bytes_len(CURRENT_VERSION as nat, 4);
    lemma_be_bytes_len(authors, 8);
    lemma_be_bytes_len(words, 8);
    lemma_be_value_of_bytes(CURRENT_VERSION as nat, 4);
    lemma_pow256_widths();
    vstd::arithmetic::div_mod::lemma_small_mod(CURRENT_VERSION as nat, pow256(4));
    assert(data.skip(HEADER_LEN as int) =~= stream);
    assert(data.subrange(0, 7) =~= magic());
    assert(data.subrange(7, 11) =~= be_bytes(CURRENT_VERSION as nat, 4));
    assert(RGFileFormat::of_buf(data) is Nov2022A);
}

/// Round trip: a well-formed table whose authors and words are clean comes
/// back from its bytes as it was, from the stream of records and from the
/// container.
pub proof fn lemma_round_trip(table: AuthorFrequencyTable)
    requires
        table.wf(),
        clean_table(table@),
    ensures
        decoded(stream_bytes(table@)) == table@,
        deserialized(container_bytes(table@)) == table@,
{
    let keys = table.keys();
    table.lemma_entries();
    lemma_table_listed(table);
    lemma_scan_stream(keys, table@);
    lemma_table_of_records(keys, table@, keys.len() as int);
    lemma_first_entries(keys, keys.len() as int, table@);
    assert(records_of(keys, table@).take(keys.len() as int) =~= records_of(keys, table@));
    lemma_container_is_stream(table@, Seq::<u8>::empty());
}

/// Extraction agrees with decoding: from the bytes of a well-formed, clean
/// table, the words extracted for an author are the words that the decoded
/// table holds for that author, and nothing is extracted for an author that
/// the table does not hold.
pub proof fn lemma_extraction_agrees(table: AuthorFrequencyTable, author: Seq<u8>)
    requires
        table.wf(),
        clean_table(table@),
    ensures
        selected(container_bytes(table@), author) == lookup(
            deserialized(container_bytes(table@)),
            author,
        ),
        selected(container_bytes(table@), author) == lookup(table@, author),
        extracted(stream_bytes(table@), author) == lookup(table@, author),
{
    let keys = table.keys();
    table.lemma_entries();
    lemma_table_listed(table);
    lemma_scan_stream(keys, table@);
    lemma_first_of_records(keys, table@, author);
    lemma_round_trip(table);
    lemma_container_is_stream(table@, author);
}

/// Fallback: a buffer that is long enough to be looked at and does not
/// begin with the magic tag is read as a stream of records, as if it had
/// been given to the reader of such streams directly.
pub proof fn lemma_legacy_fallback(data: Seq<u8>, author: Seq<u8>)
    requires
        data.len() >= MIN_LEN,
        !has_magic(data),
    ensures
        deserialized(data) == decoded(data),
        selected(data, author) == extracted(data, author),
{
}

/// Noise filtering: whatever the bytes, no table read from them holds a
/// word that is noise, and neither do the words extracted for an author.
pub proof fn lemma_no_noise(data: Seq<u8>, author: Seq<u8>)
    ensures
        table_noise_free(decoded(data)),
        table_noise_free(deserialized(data)),
        match extracted(data, author) {
            Some(words) => noise_free(words),
            None => true,
        },
        match selected(data, author) {
            Some(words) => noise_free(words),
            None => true,
        },
{
    lemma_scan_noise_free(data, author);
    lemma_scan_noise_free(data.skip(HEADER_LEN as int), author);
}

/// No two of the records are of the same author.
pub open spec fn distinct_authors(records: Seq<Record>) -> bool {
    forall|i: int, j: int|
        0 <= i < j < records.len() ==> (#[trigger] records[i]).author != (
        #[trigger] records[j]).author
}

/// Where no two records are of the same author, the first record of an
/// author holds what the table of the records holds for that author.
pub proof fn lemma_first_is_only(records: Seq<Record>, author: Seq<u8>)
    requires
        distinct_authors(records),
    ensures
        first_of(records, author) == lookup(table_of(records), author),
    decreases records.len(),
{
    if records.len() > 0 {
        let head = records.drop_last();
        let last = records.len() - 1;
        assert forall|i: int, j: int| 0 <= i < j < head.len() implies (#[trigger] head[i]).author != (
        #[trigger] head[j]).author by {
            assert(head[i] == records[i] && head[j] == records[j]);
        }
        lemma_first_is_only(head, author);
        if records[last].author == author {
            assert(is_first_of(records, author, last));
            let c = choose|c: int| is_first_of(records, author, c);
            assert(c == last);
        } else if exists|k: int| is_first_of(head, author, k) {
            let k = choose|k: int| is_first_of(head, author, k);
            assert(records[k] == head[k]);
            assert forall|j: int| 0 <= j < k implies (#[trigger] records[j]).author != author by {
                assert(records[j] == head[j]);
            }
            assert(is_first_of(records, author, k));
            let c = choose|c: int| is_first_of(records, author, c);
            assert(c == k);
        } else {
            if exists|k: int| is_first_of(records, author, k) {
                let k = choose|k: int| is_first_of(records, author, k);
                assert(head[k] == records[k]);
                assert forall|j: int| 0 <= j < k implies (#[trigger] head[j]).author != author by {
                    assert(records[j] == head[j]);
                }
                assert(is_first_of(head, author, k));
            }
        }
    }
}

/// Extraction agrees with decoding on whatever bytes close no two records
/// of the same author: the words extracted for an author are the words that
/// the decoded table holds for that author, and nothing is extracted for an
/// author that the decoded table does not hold.
pub proof fn lemma_extraction_agrees_on_bytes(data: Seq<u8>, author: Seq<u8>)
    requires
        distinct_authors(scan(data)),
    ensures
        extracted(data, author) == lookup(decoded(data), author),
{
    lemma_first_is_only(scan(data), author);
}

} // verus!
