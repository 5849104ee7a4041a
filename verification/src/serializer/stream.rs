//! How the scanner reads what the encoder writes: frame by frame, word by
//! word, record by record.

use vstd::prelude::*;
use crate::merge::{first_entries, lemma_first_entries};
use crate::order::{lemma_increasing_distinct, lemma_sorted_keys, lists, sorted_keys};
use crate::serializer::encoder::{
    marker_bytes, payload_bytes, payload_tag, record_bytes, records_bytes, stream_bytes,
    word_bytes, words_bytes,
};
use crate::serializer::integers::{
    be_bytes, be_value, lemma_be_bytes_len, lemma_be_value_of_bytes, lemma_pow256_widths, pow256,
};
use crate::serializer::marker::{is_reserved_tag, Marker, TAG_AUTHOR, TAG_AUTHOR_END, TAG_END};
use crate::serializer::scanner::{
    after_marker, completes_marker, first_of, frame_entry, initial, is_first_of, is_noise,
    lemma_run_concat, lemma_run_push, run, scan, table_of, Record, ScanState,
};
use crate::table::{AuthorCounts, WordCounts};

verus! {

/// Nowhere in the bytes is a reserved tag followed by a zero.
pub open spec fn marker_free(bytes: Seq<u8>) -> bool {
    forall|i: int|
        0 <= i && i + 1 < bytes.len() ==> !(is_reserved_tag(#[trigger] bytes[i]) && bytes[i + 1]
            == 0)
}

/// The keys of the map can be listed in increasing order.
pub open spec fn listed<V>(entries: Map<Seq<u8>, V>) -> bool {
    lists(sorted_keys(entries.dom()), entries.dom())
}

/// Words that come back from the bytes as they were written: every count
/// fits in 64 bits, no word is noise, and no word followed by the bytes of
/// its count holds a reserved tag followed by a zero.
pub open spec fn clean_words(words: WordCounts) -> bool {
    forall|w: Seq<u8>| #[trigger]
        words.contains_key(w) ==> {
            &&& words[w] <= u64::MAX
            &&& !is_noise(w)
            &&& marker_free(w + payload_bytes(words[w]))
        }
}

/// A table that comes back from the bytes as it was written: no author
/// holds a reserved tag followed by a zero, and the words of every author
/// are clean.
pub open spec fn clean_table(table: AuthorCounts) -> bool {
    forall|a: Seq<u8>| #[trigger] table.contains_key(a) ==> marker_free(a) && clean_words(table[a])
}

/// The words of every author can be listed in increasing order.
pub open spec fn words_listed(table: AuthorCounts) -> bool {
    forall|a: Seq<u8>| #[trigger] table.contains_key(a) ==> listed(table[a])
}

/// The state with another frame.
pub open spec fn framed(state: ScanState, frame: Seq<u8>) -> ScanState {
    ScanState {
        finished: state.finished,
        frame: frame,
        current: state.current,
        records: state.records,
    }
}

/// The state at the start of a frame with no author open.
pub open spec fn idle(records: Seq<Record>) -> ScanState {
    ScanState { finished: false, frame: Seq::<u8>::empty(), current: None, records: records }
}

/// The state at the start of a frame with an author open.
pub open spec fn opened(records: Seq<Record>, author: Seq<u8>, words: WordCounts) -> ScanState {
    ScanState {
        finished: false,
        frame: Seq::<u8>::empty(),
        current: Some(Record { author: author, words: words }),
        records: records,
    }
}

/// The records of the authors `keys`, one for each in their order.
pub open spec fn records_of(keys: Seq<Seq<u8>>, table: AuthorCounts) -> Seq<Record> {
    Seq::new(keys.len(), |i: int| Record { author: keys[i], words: table[keys[i]] })
}

/// Bytes that complete no marker only make the frame longer.
pub proof fn lemma_run_plain(state: ScanState, bytes: Seq<u8>)
    requires
        !state.finished,
        marker_free(state.frame + bytes),
    ensures
        run(state, bytes) == framed(state, state.frame + bytes),
    decreases bytes.len(),
{
    let whole = state.frame + bytes;
    if bytes.len() == 0 {
        assert(whole =~= state.frame);
    } else {
        let head = bytes.drop_last();
        let shorter = state.frame + head;
        assert forall|i: int| 0 <= i && i + 1 < shorter.len() implies !(is_reserved_tag(
            #[trigger] shorter[i],
        ) && shorter[i + 1] == 0) by {
            assert(shorter[i] == whole[i]);
            assert(shorter[i + 1] == whole[i + 1]);
        }
        lemma_run_plain(state, head);
        let before = framed(state, shorter);
        if completes_marker(before.frame, bytes.last()) {
            let i = shorter.len() - 1;
            assert(whole[i] == shorter.last());
            assert(whole[i + 1] == bytes.last());
        }
        assert(shorter.push(bytes.last()) =~= whole);
    }
}

/// A frame that holds no marker, followed by a marker, is read as that
/// frame in front of that marker.
pub proof fn lemma_run_token(state: ScanState, frame: Seq<u8>, tag: u8)
    requires
        !state.finished,
        state.frame.len() == 0,
        marker_free(frame),
        is_reserved_tag(tag),
    ensures
        run(state, frame + marker_bytes(tag)) == after_marker(state, Marker::of_byte(tag), frame),
{
    let tagged = frame.push(tag);
    let whole = state.frame + tagged;
    assert(whole =~= tagged);
    assert forall|i: int| 0 <= i && i + 1 < whole.len() implies !(is_reserved_tag(
        #[trigger] whole[i],
    ) && whole[i + 1] == 0) by {
        if i + 1 < frame.len() {
            assert(whole[i] == frame[i]);
            assert(whole[i + 1] == frame[i + 1]);
        }
    }
    lemma_run_plain(state, tagged);
    lemma_run_push(state, tagged, 0);
    assert(tagged.push(0) =~= frame + marker_bytes(tag));
    assert(tagged.drop_last() =~= frame);
    assert(completes_marker(tagged, 0));
}

/// The frame that the encoder writes for a word holds that word and its
/// count.
pub proof fn lemma_frame_entry(word: Seq<u8>, count: nat)
    requires
        count <= u64::MAX,
        !is_noise(word),
    ensures
        is_reserved_tag(payload_tag(count)),
        frame_entry(Marker::of_byte(payload_tag(count)), word + payload_bytes(count)) == Some(
            (word, count),
        ),
{
    let payload = payload_bytes(count);
    let frame = word + payload;
    let width: nat = if count <= 0xff {
        1
    } else if count <= 0xffff_ffff {
        4
    } else {
        8
    };
    lemma_be_bytes_len(count, width);
    lemma_be_value_of_bytes(count, width);
    lemma_pow256_widths();
    assert(payload == be_bytes(count, width));
    assert(Marker::of_byte(payload_tag(count)).payload_width() == Some(width));
    assert(frame.subrange(0, frame.len() - width) =~= word);
    assert(frame.subrange(frame.len() - width, frame.len() as int) =~= payload);
    assert(count % pow256(width) == count) by {
        vstd::arithmetic::div_mod::lemma_small_mod(count, pow256(width));
    }
    assert(be_value(payload) == count);
}

/// The words that the encoder writes for an author are read into the
/// record of the open author, one after the other.
pub proof fn lemma_run_words(
    records: Seq<Record>,
    author: Seq<u8>,
    keys: Seq<Seq<u8>>,
    words: WordCounts,
    n: int,
)
    requires
        lists(keys, words.dom()),
        clean_words(words),
        0 <= n <= keys.len(),
    ensures
        run(
            opened(records, author, WordCounts::empty()),
            words_bytes(keys.take(n), words),
        ) == opened(records, author, first_entries(keys, n, words)),
    decreases n,
{
    let start = opened(records, author, WordCounts::empty());
    if n == 0 {
        lemma_first_entries(keys, 0, words);
        assert(keys.take(0) =~= Seq::<Seq<u8>>::empty());
    } else {
        let word = keys[n - 1];
        let count = words[word];
        lemma_first_entries(keys, n - 1, words);
        lemma_run_words(records, author, keys, words, n - 1);
        assert(keys.take(n).drop_last() =~= keys.take(n - 1));
        assert(keys.take(n).last() == word);
        let done = words_bytes(keys.take(n - 1), words);
        let frame = word + payload_bytes(count);
        let tag = payload_tag(count);
        assert(words_bytes(keys.take(n), words) == done + word_bytes(word, count));
        assert(word_bytes(word, count) =~= frame + marker_bytes(tag));
        lemma_run_concat(start, done, word_bytes(word, count));
        let middle = opened(records, author, first_entries(keys, n - 1, words));
        lemma_frame_entry(word, count);
        lemma_run_token(middle, frame, tag);
    }
}

/// The record that the encoder writes for an author is read as one record
/// of that author with those words.
pub proof fn lemma_run_record(records: Seq<Record>, author: Seq<u8>, words: WordCounts)
    requires
        marker_free(author),
        clean_words(words),
        listed(words),
    ensures
        run(idle(records), record_bytes(author, words)) == idle(
            records.push(Record { author: author, words: words }),
        ),
{
    let keys = sorted_keys(words.dom());
    let none = WordCounts::empty();
    let head = author + marker_bytes(TAG_AUTHOR);
    let body = words_bytes(keys, words);
    let tail = marker_bytes(TAG_AUTHOR_END);
    lemma_run_token(idle(records), author, TAG_AUTHOR);
    assert(run(idle(records), head) == opened(records, author, none));
    lemma_run_words(records, author, keys, words, keys.len() as int);
    lemma_first_entries(keys, keys.len() as int, words);
    assert(keys.take(keys.len() as int) =~= keys);
    lemma_run_concat(idle(records), head, body);
    let full = opened(records, author, words);
    assert(run(idle(records), head + body) == full);
    assert(marker_free(Seq::<u8>::empty()));
    lemma_run_token(full, Seq::<u8>::empty(), TAG_AUTHOR_END);
    assert(Seq::<u8>::empty() + tail =~= tail);
    lemma_run_concat(idle(records), head + body, tail);
    assert(record_bytes(author, words) == head + body + tail);
}

/// The records that the encoder writes for the first `n` authors are read
/// as those records, in their order.
pub proof fn lemma_run_records(keys: Seq<Seq<u8>>, table: AuthorCounts, n: int)
    requires
        lists(keys, table.dom()),
        clean_table(table),
        words_listed(table),
        0 <= n <= keys.len(),
    ensures
        run(initial(), records_bytes(keys.take(n), table)) == idle(records_of(keys, table).take(n)),
    decreases n,
{
    if n == 0 {
        assert(keys.take(0) =~= Seq::<Seq<u8>>::empty());
        assert(records_of(keys, table).take(0) =~= Seq::<Record>::empty());
    } else {
        let author = keys[n - 1];
        assert(keys.contains(author));
        assert(table.contains_key(author));
        lemma_run_records(keys, table, n - 1);
        assert(keys.take(n).drop_last() =~= keys.take(n - 1));
        assert(keys.take(n).last() == author);
        let done = records_bytes(keys.take(n - 1), table);
        let so_far = records_of(keys, table).take(n - 1);
        lemma_run_concat(initial(), done, record_bytes(author, table[author]));
        lemma_run_record(so_far, author, table[author]);
        assert(so_far.push(Record { author: author, words: table[author] }) =~= records_of(
            keys,
            table,
        ).take(n));
    }
}

/// The stream that the encoder writes for a table is read as one record
/// for each author, in increasing order of the authors.
pub proof fn lemma_scan_stream(keys: Seq<Seq<u8>>, table: AuthorCounts)
    requires
        lists(keys, table.dom()),
        clean_table(table),
        words_listed(table),
    ensures
        scan(stream_bytes(table)) == records_of(keys, table),
{
    lemma_sorted_keys(keys, table.dom());
    let n = keys.len() as int;
    let body = records_bytes(keys, table);
    let all = records_of(keys, table);
    lemma_run_records(keys, table, n);
    assert(keys.take(n) =~= keys);
    assert(all.take(n) =~= all);
    lemma_run_concat(initial(), body, marker_bytes(TAG_END));
    assert(marker_free(Seq::<u8>::empty()));
    lemma_run_token(idle(all), Seq::<u8>::empty(), TAG_END);
    assert(Seq::<u8>::empty() + marker_bytes(TAG_END) =~= marker_bytes(TAG_END));
}

/// The records of the first `n` authors make the table of those authors.
pub proof fn lemma_table_of_records(keys: Seq<Seq<u8>>, table: AuthorCounts, n: int)
    requires
        lists(keys, table.dom()),
        0 <= n <= keys.len(),
    ensures
        table_of(records_of(keys, table).take(n)) == first_entries(keys, n, table),
    decreases n,
{
    lemma_first_entries(keys, 0, table);
    if n > 0 {
        lemma_table_of_records(keys, table, n - 1);
        lemma_first_entries(keys, n - 1, table);
        let all = records_of(keys, table);
        assert(all.take(n).drop_last() =~= all.take(n - 1));
    }
}

/// Among the records of a table the first of an author is the only one.
pub proof fn lemma_first_of_records(keys: Seq<Seq<u8>>, table: AuthorCounts, author: Seq<u8>)
    requires
        lists(keys, table.dom()),
    ensures
        first_of(records_of(keys, table), author) == (if table.contains_key(author) {
            Some(table[author])
        } else {
            None
        }),
{
    let all = records_of(keys, table);
    if table.contains_key(author) {
        assert(keys.contains(author));
        let k = keys.index_of(author);
        assert forall|j: int| 0 <= j < k implies (#[trigger] all[j]).author != author by {
            if all[j].author == author {
                lemma_increasing_distinct(keys, j, k);
            }
        }
        assert(is_first_of(all, author, k));
        let c = choose|c: int| is_first_of(all, author, c);
        lemma_increasing_distinct(keys, c, k);
    } else {
        if exists|k: int| is_first_of(all, author, k) {
            let k = choose|k: int| is_first_of(all, author, k);
            assert(keys[k] == author);
            assert(keys.contains(author));
        }
    }
}

} // verus!
