//! What a stream of records means: the scanner as a state machine over
//! bytes, and the tables that its records make.

use vstd::prelude::*;
use crate::serializer::integers::be_value;
use crate::serializer::marker::{is_reserved_tag, Marker};
use crate::table::{AuthorCounts, WordCounts};

verus! {

/// The word begins the letters "http" at position `i`.
pub open spec fn holds_http_at(word: Seq<u8>, i: int) -> bool {
    &&& 0 <= i
    &&& i + 4 <= word.len()
    &&& word[i] == 104
    &&& word[i + 1] == 116
    &&& word[i + 2] == 116
    &&& word[i + 3] == 112
}

/// The word holds the letters "http" somewhere.
pub open spec fn holds_http(word: Seq<u8>) -> bool {
    exists|i: int| holds_http_at(word, i)
}

/// Every byte of the word is a decimal digit. This holds of the empty word.
pub open spec fn all_digits(word: Seq<u8>) -> bool {
    forall|i: int| 0 <= i < word.len() ==> 48 <= #[trigger] word[i] <= 57
}

/// Words that the scanner leaves out of every table: those that hold
/// "http" and those made of digits alone, the empty word among them.
pub open spec fn is_noise(word: Seq<u8>) -> bool {
    holds_http(word) || all_digits(word)
}

/// An author's record: the identifier and the counts of the words.
pub struct Record {
    pub author: Seq<u8>,
    pub words: WordCounts,
}

/// The state of the scanner between two bytes.
pub struct ScanState {
    /// An `End` marker was read: the bytes that follow change nothing.
    pub finished: bool,
    /// The bytes read since the last marker.
    pub frame: Seq<u8>,
    /// The record of the author that is open, if one is.
    pub current: Option<Record>,
    /// The records closed so far, in the order in which they were closed.
    pub records: Seq<Record>,
}

/// The state before the first byte.
pub open spec fn initial() -> ScanState {
    ScanState {
        finished: false,
        frame: Seq::<u8>::empty(),
        current: None,
        records: Seq::<Record>::empty(),
    }
}

/// The word and the count that a frame in front of a frequency marker
/// holds: the count in the last bytes, as many as the marker says, the word
/// in the bytes before them. A frame too short for its count holds nothing,
/// and neither does one whose word is noise.
pub open spec fn frame_entry(marker: Marker, frame: Seq<u8>) -> Option<(Seq<u8>, nat)> {
    match marker.payload_width() {
        Some(width) => {
            if frame.len() < width {
                None
            } else {
                let cut = frame.len() - width;
                let word = frame.subrange(0, cut);
                if is_noise(word) {
                    None
                } else {
                    Some((word, be_value(frame.subrange(cut, frame.len() as int))))
                }
            }
        },
        None => None,
    }
}

/// The record that is open after a frame of words was read into it.
pub open spec fn with_frame(record: Record, marker: Marker, frame: Seq<u8>) -> Record {
    match frame_entry(marker, frame) {
        Some(entry) => Record { author: record.author, words: record.words.insert(entry.0, entry.1) },
        None => record,
    }
}

/// The state after a marker, given the frame that stood in front of its tag.
/// With no author open only `Author` and `End` are heeded. Every marker
/// begins a new frame.
pub open spec fn after_marker(state: ScanState, marker: Marker, frame: Seq<u8>) -> ScanState {
    let fresh = Seq::<u8>::empty();
    match marker {
        Marker::End => ScanState { finished: true, frame: fresh, current: None, records: state.records },
        Marker::Author => ScanState {
            finished: false,
            frame: fresh,
            current: Some(Record { author: frame, words: WordCounts::empty() }),
            records: state.records,
        },
        Marker::AuthorEnd => match state.current {
            Some(record) => ScanState {
                finished: false,
                frame: fresh,
                current: None,
                records: state.records.push(record),
            },
            None => ScanState { finished: false, frame: fresh, current: None, records: state.records },
        },
        _ => match state.current {
            Some(record) => ScanState {
                finished: false,
                frame: fresh,
                current: Some(with_frame(record, marker, frame)),
                records: state.records,
            },
            None => ScanState { finished: false, frame: fresh, current: None, records: state.records },
        },
    }
}

/// A zero byte right after a reserved tag completes a marker.
pub open spec fn completes_marker(frame: Seq<u8>, byte: u8) -> bool {
    byte == 0 && frame.len() > 0 && is_reserved_tag(frame.last())
}

/// The state after one more byte.
pub open spec fn step(state: ScanState, byte: u8) -> ScanState {
    if state.finished {
        state
    } else if completes_marker(state.frame, byte) {
        after_marker(state, Marker::of_byte(state.frame.last()), state.frame.drop_last())
    } else {
        ScanState {
            finished: false,
            frame: state.frame.push(byte),
            current: state.current,
            records: state.records,
        }
    }
}

/// The state after a run of bytes.
pub open spec fn run(state: ScanState, bytes: Seq<u8>) -> ScanState
    decreases bytes.len(),
{
    if bytes.len() == 0 {
        state
    } else {
        step(run(state, bytes.drop_last()), bytes.last())
    }
}

/// The records that a stream closes before its `End` marker, or before it
/// breaks off.
pub open spec fn scan(bytes: Seq<u8>) -> Seq<Record> {
    run(initial(), bytes).records
}

/// The table that records make, a later record replacing an earlier one of
/// the same author.
pub open spec fn table_of(records: Seq<Record>) -> AuthorCounts
    decreases records.len(),
{
    if records.len() == 0 {
        AuthorCounts::empty()
    } else {
        table_of(records.drop_last()).insert(records.last().author, records.last().words)
    }
}

/// The table that a stream of records holds.
pub open spec fn decoded(bytes: Seq<u8>) -> AuthorCounts {
    table_of(scan(bytes))
}

/// Record `k` is the first of `author` among `records`.
pub open spec fn is_first_of(records: Seq<Record>, author: Seq<u8>, k: int) -> bool {
    &&& 0 <= k < records.len()
    &&& records[k].author == author
    &&& forall|j: int| 0 <= j < k ==> (#[trigger] records[j]).author != author
}

/// The words of the first record of `author`, if there is one.
pub open spec fn first_of(records: Seq<Record>, author: Seq<u8>) -> Option<WordCounts> {
    if exists|k: int| is_first_of(records, author, k) {
        Some(records[choose|k: int| is_first_of(records, author, k)].words)
    } else {
        None
    }
}

/// What a stream of records holds for one author: the words of the first
/// record closed under that identifier.
pub open spec fn extracted(bytes: Seq<u8>, author: Seq<u8>) -> Option<WordCounts> {
    first_of(scan(bytes), author)
}

/// Running over one more byte is one more step.
pub proof fn lemma_run_push(state: ScanState, bytes: Seq<u8>, byte: u8)
    ensures
        run(state, bytes.push(byte)) == step(run(state, bytes), byte),
{
    assert(bytes.push(byte).drop_last() =~= bytes);
}

/// Running over two runs of bytes is running over the first and then, from
/// where that ended, over the second.
pub proof fn lemma_run_concat(state: ScanState, first: Seq<u8>, second: Seq<u8>)
    ensures
        run(state, first + second) == run(run(state, first), second),
    decreases second.len(),
{
    if second.len() == 0 {
        assert(first + second =~= first);
    } else {
        lemma_run_concat(state, first, second.drop_last());
        assert((first + second).drop_last() =~= first + second.drop_last());
    }
}

/// After an `End` marker nothing changes any more.
pub proof fn lemma_run_finished(state: ScanState, bytes: Seq<u8>)
    requires
        state.finished,
    ensures
        run(state, bytes) == state,
    decreases bytes.len(),
{
    if bytes.len() > 0 {
        lemma_run_finished(state, bytes.drop_last());
    }
}

/// The records closed so far stay, in their places, whatever follows.
pub proof fn lemma_run_keeps_records(state: ScanState, bytes: Seq<u8>)
    ensures
        run(state, bytes).records.len() >= state.records.len(),
        run(state, bytes).records.subrange(0, state.records.len() as int) == state.records,
    decreases bytes.len(),
{
    if bytes.len() == 0 {
        assert(state.records.subrange(0, state.records.len() as int) =~= state.records);
    } else {
        lemma_run_keeps_records(state, bytes.drop_last());
        let before = run(state, bytes.drop_last());
        let after = run(state, bytes);
        assert(after.records.len() >= before.records.len());
        assert(after.records.subrange(0, before.records.len() as int) =~= before.records);
        assert(after.records.subrange(0, state.records.len() as int) =~= before.records.subrange(
            0,
            state.records.len() as int,
        ));
    }
}

/// The first record of an author among the records closed so far is the
/// first of that author among all that the stream closes.
pub proof fn lemma_first_of_prefix(records: Seq<Record>, n: int, author: Seq<u8>, k: int)
    requires
        0 <= n <= records.len(),
        is_first_of(records.subrange(0, n), author, k),
    ensures
        first_of(records, author) == Some(records[k].words),
{
    let head = records.subrange(0, n);
    assert(records[k] == head[k]);
    assert forall|j: int| 0 <= j < k implies (#[trigger] records[j]).author != author by {
        assert(records[j] == head[j]);
    }
    assert(is_first_of(records, author, k));
    let c = choose|c: int| is_first_of(records, author, c);
    assert(c == k);
}

} // verus!
