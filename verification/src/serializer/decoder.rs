//! Reading tables back from bytes.

use vstd::prelude::*;
use vstd::slice::slice_to_vec;
use vstd::string::StringExecFns;
use crate::serializer::feedback::{decimal, push_decimal, FnFeedback};
use crate::serializer::format::{RGFileFormat, HEADER_LEN};
use crate::serializer::integers::{be_value, lemma_be_value_bound, lemma_pow256_widths, read_be};
use crate::serializer::noise::{lemma_scan_noise_free, table_noise_free};
use crate::serializer::marker::Marker;
use crate::serializer::scanner::{
    completes_marker, decoded, frame_entry, holds_http, holds_http_at, initial, is_noise,
    lemma_run_concat, lemma_run_finished, lemma_run_push, run, step, table_of, Record,
};
use crate::table::{AuthorCounts, AuthorFrequencyTable, WordFrequencyTable};

verus! {

/// What to do with the frame in front of a marker.
#[derive(Clone, Copy, Debug, PartialEq, Eq, Structural)]
pub enum Action {
    /// The frame ends in a count: the count, and the number of bytes at the
    /// end of the frame that spell it.
    FreqWordOffset(u64, u8),
    /// The frame holds no count: go on with the next.
    Continue,
}

/// The action that a marker asks for on the frame in front of it.
pub open spec fn action_for(marker: Marker, frame: Seq<u8>) -> Action {
    match marker.payload_width() {
        Some(width) => {
            if frame.len() < width {
                Action::Continue
            } else {
                Action::FreqWordOffset(
                    be_value(frame.subrange(frame.len() - width, frame.len() as int)) as u64,
                    width as u8,
                )
            }
        },
        None => Action::Continue,
    }
}

/// Reads the count at the end of a frame, as wide as the marker says.
pub fn establish_freqs(marker: &Marker, frame: &[u8]) -> (action: Action)
    ensures
        action == action_for(*marker, frame@),
{
    let width: usize = match marker {
        Marker::FreqU8 => 1,
        Marker::FreqU32 => 4,
        Marker::FreqU64 => 8,
        _ => {
            return Action::Continue;
        },
    };
    if frame.len() < width {
        return Action::Continue;
    }
    let freq = read_be(&frame[frame.len() - width..frame.len()]);
    Action::FreqWordOffset(freq, width as u8)
}

/// Whether a word is left out of every table.
pub fn is_noise_word(word: &[u8]) -> (b: bool)
    ensures
        b == is_noise(word@),
{
    let mut i: usize = 0;
    while word.len() >= 4 && i <= word.len() - 4
        invariant
            forall|j: int| 0 <= j < i ==> !holds_http_at(word@, j),
        decreases word.len() - i,
    {
        if word[i] == 104 && word[i + 1] == 116 && word[i + 2] == 116 && word[i + 3] == 112 {
            assert(holds_http_at(word@, i as int));
            return true;
        }
        i += 1;
    }
    assert(!holds_http(word@));
    let mut k: usize = 0;
    while k < word.len()
        invariant
            k <= word.len(),
            !holds_http(word@),
            forall|j: int| 0 <= j < k ==> 48 <= #[trigger] word@[j] <= 57,
        decreases word.len() - k,
    {
        if word[k] < 48 || word[k] > 57 {
            assert(!(48 <= word@[k as int] <= 57));
            return false;
        }
        k += 1;
    }
    true
}

/// Reads the frame in front of a frequency marker into the table of the
/// open author.
pub fn read_frame(table: &mut WordFrequencyTable, marker: Marker, frame: &[u8])
    requires
        old(table).wf(),
    ensures
        final(table).wf(),
        final(table)@ == (match frame_entry(marker, frame@) {
            Some(entry) => old(table)@.insert(entry.0, entry.1),
            None => old(table)@,
        }),
{
    match establish_freqs(&marker, frame) {
        Action::FreqWordOffset(freq, word_offset) => {
            let word = &frame[0..frame.len() - word_offset as usize];
            proof {
                lemma_be_value_bound(
                    frame@.subrange(frame.len() - word_offset as int, frame.len() as int),
                );
                lemma_pow256_widths();
            }
            if !is_noise_word(word) {
                assert(word@.len() > 0);
                table.insert(slice_to_vec(word), freq);
            }
        },
        Action::Continue => {},
    }
}

/// Where the scanner stands between two markers.
pub enum DeState {
    /// No author is open.
    FindAuthor,
    /// An author is open: the identifier, the words read so far, and whether
    /// the words of this author are skipped.
    Author(Vec<u8>, WordFrequencyTable, bool),
}

impl DeState {
    /// The word table of the open author is well-formed.
    pub open spec fn wf(self) -> bool {
        match self {
            DeState::FindAuthor => true,
            DeState::Author(_, freqs, _) => freqs.wf(),
        }
    }

    /// The record that is open, if one is.
    pub open spec fn record(self) -> Option<Record> {
        match self {
            DeState::FindAuthor => None,
            DeState::Author(author, freqs, _) => Some(Record { author: author@, words: freqs@ }),
        }
    }
}

/// The text that announces the current revision, with the counts of its
/// header.
pub open spec fn revision_text(authors: nat, words: nat) -> Seq<char> {
    "Loading: File format is Nov2022A ("@ + decimal(authors) + " authors, "@ + decimal(words)
        + " words)"@
}

/// Writes the text that announces the current revision.
pub fn revision_message(authors: u64, words: u64) -> (text: String)
    ensures
        text@ == revision_text(authors as nat, words as nat),
{
    let mut text = "Loading: File format is Nov2022A (".to_owned();
    push_decimal(&mut text, authors);
    text.append(" authors, ");
    push_decimal(&mut text, words);
    text.append(" words)");
    text
}

/// The stream of records of a buffer of the current revision: what stands
/// behind the header, which is nothing where the buffer ends before its
/// header does.
pub open spec fn behind_header(data: Seq<u8>) -> Seq<u8> {
    if data.len() >= HEADER_LEN {
        data.skip(HEADER_LEN as int)
    } else {
        Seq::<u8>::empty()
    }
}

/// What the reader of a stream of so many bytes may tell its observer: that
/// it starts, and how far it has come, in bytes read or in authors closed.
pub open spec fn scanner_tells(len: nat, event: FnFeedback) -> bool {
    match event {
        FnFeedback::Message(text) => text@ == "Reading: Loading authors.."@,
        FnFeedback::Progress(done) => done <= len,
        _ => false,
    }
}

/// What the reader of a buffer of any revision may tell its observer: what
/// it found the buffer to be, with the author count where the header is that
/// of the current revision, and what the reader of the records tells.
pub open spec fn decoder_tells(data: Seq<u8>, event: FnFeedback) -> bool {
    match RGFileFormat::of_buf(data) {
        RGFileFormat::Nov2022A(authors, words) => {
            ||| event.is_message(revision_text(authors as nat, words as nat))
            ||| event.is_total(authors as nat)
            ||| scanner_tells((data.len() - HEADER_LEN) as nat, event)
        },
        RGFileFormat::Unknown => {
            ||| event.is_message("Loading: File format is unknown, assuming classic"@)
            ||| scanner_tells(data.len(), event)
        },
        RGFileFormat::TooShort => event.is_message("Loading: File is too short"@),
    }
}

/// The table that a buffer holds, whatever its revision: nothing where the
/// buffer is too short to be looked at, the records behind the header where
/// the header is that of the current revision, and else the whole buffer
/// read as records.
pub open spec fn deserialized(data: Seq<u8>) -> AuthorCounts {
    match RGFileFormat::of_buf(data) {
        RGFileFormat::TooShort => AuthorCounts::empty(),
        RGFileFormat::Nov2022A(_, _) => decoded(data.skip(HEADER_LEN as int)),
        RGFileFormat::Unknown => decoded(data),
    }
}

/// Reads a table from a buffer of any revision.
pub fn deserialize(data: &[u8], mut fn_feedback: impl FnMut(FnFeedback) -> ()) -> (table:
    AuthorFrequencyTable)
    requires
        forall|e: FnFeedback| decoder_tells(data@, e) ==> #[trigger] call_requires(fn_feedback, (e,)),
    ensures
        table.wf(),
        table@ == deserialized(data@),
        table_noise_free(table@),
{
    match RGFileFormat::from_buf(data) {
        RGFileFormat::Nov2022A(authors, words) => {
            fn_feedback(FnFeedback::Message(revision_message(authors, words)));
            fn_feedback(FnFeedback::Total(authors));
            try_deserialize_Nov2022A(data, fn_feedback)
        },
        RGFileFormat::Unknown => {
            fn_feedback(
                FnFeedback::Message("Loading: File format is unknown, assuming classic".to_owned()),
            );
            try_deserialize_original(data, fn_feedback)
        },
        RGFileFormat::TooShort => {
            fn_feedback(FnFeedback::Message("Loading: File is too short".to_owned()));
            AuthorFrequencyTable::new()
        },
    }
}

/// Reads a table from a buffer of the current revision: the records behind
/// the header, whatever the header holds.
#[allow(non_snake_case)]
pub fn try_deserialize_Nov2022A(data: &[u8], fn_feedback: impl FnMut(FnFeedback) -> ()) -> (table:
    AuthorFrequencyTable)
    requires
        forall|e: FnFeedback|
            scanner_tells(behind_header(data@).len(), e) ==> #[trigger] call_requires(
                fn_feedback,
                (e,),
            ),
    ensures
        table.wf(),
        table@ == decoded(behind_header(data@)),
        table_noise_free(table@),
{
    let start = if data.len() < HEADER_LEN {
        data.len()
    } else {
        HEADER_LEN
    };
    let records = &data[start..data.len()];
    assert(records@ =~= behind_header(data@));
    try_deserialize_original(records, fn_feedback)
}

/// Reads a table from a stream of records without a header.
pub fn try_deserialize_original(data: &[u8], mut fn_feedback: impl FnMut(FnFeedback) -> ()) -> (table:
    AuthorFrequencyTable)
    requires
        forall|e: FnFeedback|
            scanner_tells(data@.len(), e) ==> #[trigger] call_requires(fn_feedback, (e,)),
    ensures
        table.wf(),
        table@ == decoded(data@),
        table_noise_free(table@),
{
    proof {
        lemma_scan_noise_free(data@, Seq::<u8>::empty());
    }
    let mut freq_vec = AuthorFrequencyTable::new();
    let mut state = DeState::FindAuthor;
    let mut i: usize = 0;
    let mut frame_start: usize = 0;
    let ghost mut st = initial();

    fn_feedback(FnFeedback::Message("Reading: Loading authors..".to_owned()));

    while i < data.len()
        invariant
            forall|e: FnFeedback|
                scanner_tells(data@.len(), e) ==> #[trigger] call_requires(fn_feedback, (e,)),
            frame_start <= i <= data.len(),
            frame_start == 0 || data@[frame_start - 1] == 0,
            freq_vec@.dom().finite(),
            freq_vec@.dom().len() <= i,
            st == run(initial(), data@.take(i as int)),
            !st.finished,
            st.frame == data@.subrange(frame_start as int, i as int),
            st.current == state.record(),
            state.wf(),
            freq_vec.wf(),
            freq_vec@ == table_of(st.records),
        decreases data.len() - i,
    {
        let marker = if data[i] == 0 && i != 0 {
            Marker::from_byte(data[i - 1])
        } else {
            Marker::Unknown
        };

        if i % 1000 == 0 {
            fn_feedback(FnFeedback::Progress(i as u64));
        }

        proof {
            assert(data@.take(i + 1) =~= data@.take(i as int).push(data@[i as int]));
            lemma_run_push(initial(), data@.take(i as int), data@[i as int]);
            if frame_start < i {
                assert(st.frame.last() == data@[i - 1]);
            }
            assert(completes_marker(st.frame, data@[i as int]) <==> marker != Marker::Unknown);
        }
        let ghost next = step(st, data@[i as int]);

        match marker {
            Marker::Unknown => {},
            Marker::End => {
                proof {
                    assert(data@ =~= data@.take(i + 1) + data@.skip(i + 1));
                    lemma_run_concat(initial(), data@.take(i + 1), data@.skip(i + 1));
                    lemma_run_finished(next, data@.skip(i + 1));
                    lemma_scan_noise_free(data@, Seq::<u8>::empty());
                }
                return freq_vec;
            },
            _ => {
                let frame = &data[frame_start..i - 1];
                assert(frame@ =~= st.frame.drop_last());
                state = match state {
                    DeState::FindAuthor => match marker {
                        Marker::Author => DeState::Author(
                            slice_to_vec(frame),
                            WordFrequencyTable::new(),
                            false,
                        ),
                        _ => DeState::FindAuthor,
                    },
                    DeState::Author(author, mut freqs, skip) => match marker {
                        Marker::Author => DeState::Author(
                            slice_to_vec(frame),
                            WordFrequencyTable::new(),
                            false,
                        ),
                        Marker::AuthorEnd => {
                            freq_vec.insert(author, freqs);
                            assert(next.records.drop_last() =~= st.records);
                            proof {
                                freq_vec.lemma_entries();
                            }
                            fn_feedback(FnFeedback::Progress(freq_vec.len() as u64));
                            DeState::FindAuthor
                        },
                        _ => {
                            read_frame(&mut freqs, marker, frame);
                            DeState::Author(author, freqs, skip)
                        },
                    },
                };
                frame_start = i + 1;
            },
        }
        proof {
            st = next;
            assert(st.frame =~= data@.subrange(frame_start as int, i + 1));
        }
        i += 1;
    }
    assert(data@.take(i as int) =~= data@);
    freq_vec
}

} // verus!
