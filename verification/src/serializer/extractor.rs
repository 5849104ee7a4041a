//! Reading the table of one author without building the others.

use vstd::prelude::*;
use vstd::slice::slice_to_vec;
use vstd::string::StringSliceAdditionalSpecFns;
use crate::order::{compare_keys, KeyOrder};
use crate::serializer::decoder::{read_frame, DeState};
use crate::serializer::feedback::FnFeedback;
use crate::serializer::format::{RGFileFormat, HEADER_LEN};
use crate::serializer::noise::{lemma_scan_noise_free, noise_free};
use crate::serializer::marker::Marker;
use crate::serializer::scanner::{
    completes_marker, extracted, first_of, initial, is_first_of, lemma_first_of_prefix,
    lemma_run_concat, lemma_run_finished, lemma_run_keeps_records, lemma_run_push, run, scan,
    step, Record,
};
use crate::table::{WordCounts, WordFrequencyTable};

verus! {

/// What a buffer of any revision holds for one author: nothing where the
/// buffer is too short to be looked at, else what its records hold, the
/// header of the current revision left aside.
pub open spec fn selected(data: Seq<u8>, author: Seq<u8>) -> Option<WordCounts> {
    match RGFileFormat::of_buf(data) {
        RGFileFormat::TooShort => None,
        RGFileFormat::Nov2022A(_, _) => extracted(data.skip(HEADER_LEN as int), author),
        RGFileFormat::Unknown => extracted(data, author),
    }
}

/// What the search through a stream of so many bytes may tell its
/// observer: that it starts, the length of the stream, and the number of
/// bytes read so far, which is a multiple of a thousand.
pub open spec fn search_tells(len: nat, event: FnFeedback) -> bool {
    match event {
        FnFeedback::Message(text) => text@ == "Reading: Loading authors.."@,
        FnFeedback::Total(total) => total == len,
        FnFeedback::Progress(done) => done % 1000 == 0 && done < len,
        FnFeedback::Tick => false,
    }
}

/// What the search through a buffer of any revision may tell its observer:
/// that the buffer is too short, where it is, and else what the search
/// through the records tells.
pub open spec fn extractor_tells(data: Seq<u8>, event: FnFeedback) -> bool {
    match RGFileFormat::of_buf(data) {
        RGFileFormat::Nov2022A(_, _) => search_tells((data.len() - HEADER_LEN) as nat, event),
        RGFileFormat::Unknown => search_tells(data.len(), event),
        RGFileFormat::TooShort => event.is_message("Loading: File is too short"@),
    }
}

/// None of the records is of `author`.
pub open spec fn none_of(records: Seq<Record>, author: Seq<u8>) -> bool {
    forall|j: int| 0 <= j < records.len() ==> (#[trigger] records[j]).author != author
}

/// What the scanner knows of the open author while it looks for `user`:
/// whose record is open, that the words are skipped unless the author is
/// the one looked for, and the words read so far where they are not skipped.
pub open spec fn follows(state: DeState, current: Option<Record>, user: Seq<u8>) -> bool {
    match state {
        DeState::FindAuthor => current is None,
        DeState::Author(author, freqs, skip) => {
            &&& freqs.wf()
            &&& match current {
                Some(record) => {
                    &&& record.author == author@
                    &&& skip == (author@ != user)
                    &&& !skip ==> freqs@ == record.words
                },
                None => false,
            }
        },
    }
}

/// Reads the words of one author from a buffer of any revision. The
/// identifier must match byte for byte. The scan ends with the record that
/// matches.
pub fn extract_user(data: &[u8], user: &str, mut fn_feedback: impl FnMut(FnFeedback) -> ()) -> (r:
    Option<WordFrequencyTable>)
    requires
        forall|e: FnFeedback|
            extractor_tells(data@, e) ==> #[trigger] call_requires(fn_feedback, (e,)),
    ensures
        match r {
            Some(table) => table.wf() && selected(data@, user.spec_bytes()) == Some(table@)
                && noise_free(table@),
            None => selected(data@, user.spec_bytes()) is None,
        },
{
    match RGFileFormat::from_buf(data) {
        RGFileFormat::Nov2022A(_, _) => {
            let records = &data[HEADER_LEN..data.len()];
            assert(records@ =~= data@.skip(HEADER_LEN as int));
            extract_from_records(records, user.as_bytes(), fn_feedback)
        },
        RGFileFormat::Unknown => extract_from_records(data, user.as_bytes(), fn_feedback),
        RGFileFormat::TooShort => {
            fn_feedback(FnFeedback::Message("Loading: File is too short".to_owned()));
            None
        },
    }
}

/// Reads the words of one author from a stream of records without a header.
pub fn extract_from_records(
    data: &[u8],
    user: &[u8],
    mut fn_feedback: impl FnMut(FnFeedback) -> (),
) -> (r: Option<WordFrequencyTable>)
    requires
        forall|e: FnFeedback|
            search_tells(data@.len(), e) ==> #[trigger] call_requires(fn_feedback, (e,)),
    ensures
        match r {
            Some(table) => table.wf() && extracted(data@, user@) == Some(table@) && noise_free(
                table@,
            ),
            None => extracted(data@, user@) is None,
        },
{
    proof {
        lemma_scan_noise_free(data@, user@);
    }
    let mut state = DeState::FindAuthor;
    let mut i: usize = 0;
    let mut frame_start: usize = 0;
    let ghost mut st = initial();

    fn_feedback(FnFeedback::Message("Reading: Loading authors..".to_owned()));
    fn_feedback(FnFeedback::Total(data.len() as u64));

    while i < data.len()
        invariant
            forall|e: FnFeedback|
                search_tells(data@.len(), e) ==> #[trigger] call_requires(fn_feedback, (e,)),
            frame_start <= i <= data.len(),
            frame_start == 0 || data@[frame_start - 1] == 0,
            st == run(initial(), data@.take(i as int)),
            !st.finished,
            st.frame == data@.subrange(frame_start as int, i as int),
            follows(state, st.current, user@),
            none_of(st.records, user@),
        decreases data.len() - i,
    {
        let marker = if data[i] == 0 && i != 0 {
            Marker::from_byte(data[i - 1])
        } else {
            Marker::Unknown
        };

        if i % 1000 == 0 {
            fn_feedback(FnFeedback::Progress(i as u64));
        }

        proof {
            assert(data@.take(i + 1) =~= data@.take(i as int).push(data@[i as int]));
            lemma_run_push(initial(), data@.take(i as int), data@[i as int]);
            if frame_start < i {
                assert(st.frame.last() == data@[i - 1]);
            }
            assert(completes_marker(st.frame, data@[i as int]) <==> marker != Marker::Unknown);
            assert(data@ =~= data@.take(i + 1) + data@.skip(i + 1));
            lemma_run_concat(initial(), data@.take(i + 1), data@.skip(i + 1));
        }
        let ghost next = step(st, data@[i as int]);

        match marker {
            Marker::Unknown => {},
            Marker::End => {
                proof {
                    lemma_run_finished(next, data@.skip(i + 1));
                    lemma_none_of(scan(data@), user@);
                }
                return None;
            },
            _ => {
                let frame = &data[frame_start..i - 1];
                assert(frame@ =~= st.frame.drop_last());
                state = match state {
                    DeState::FindAuthor => match marker {
                        Marker::Author => DeState::Author(
                            slice_to_vec(frame),
                            WordFrequencyTable::new(),
                            !same_bytes(frame, user),
                        ),
                        _ => DeState::FindAuthor,
                    },
                    DeState::Author(author, mut freqs, skip) => match marker {
                        Marker::Author => DeState::Author(
                            slice_to_vec(frame),
                            WordFrequencyTable::new(),
                            !same_bytes(frame, user),
                        ),
                        Marker::AuthorEnd => {
                            if !skip {
                                proof {
                                    let k = st.records.len() as int;
                                    let all = scan(data@);
                                    lemma_run_keeps_records(next, data@.skip(i + 1));
                                    assert(next.records[k].author == user@);
                                    assert(is_first_of(next.records, user@, k));
                                    lemma_first_of_prefix(all, next.records.len() as int, user@, k);
                                    assert(all[k] == next.records[k]);
                                    lemma_scan_noise_free(data@, user@);
                                }
                                return Some(freqs);
                            }
                            DeState::FindAuthor
                        },
                        _ => {
                            if !skip {
                                read_frame(&mut freqs, marker, frame);
                            }
                            DeState::Author(author, freqs, skip)
                        },
                    },
                };
                frame_start = i + 1;
            },
        }
        proof {
            st = next;
            assert(st.frame =~= data@.subrange(frame_start as int, i + 1));
        }
        i += 1;
    }
    proof {
        assert(data@.take(i as int) =~= data@);
        lemma_none_of(scan(data@), user@);
    }
    None
}

/// Whether two runs of bytes are the same.
pub fn same_bytes(a: &[u8], b: &[u8]) -> (same: bool)
    ensures
        same == (a@ == b@),
{
    match compare_keys(a, b) {
        KeyOrder::Same => true,
        _ => false,
    }
}

/// Where no record is of an author, there is no first one.
pub proof fn lemma_none_of(records: Seq<Record>, author: Seq<u8>)
    requires
        none_of(records, author),
    ensures
        first_of(records, author) is None,
{
    if exists|k: int| is_first_of(records, author, k) {
        let k = choose|k: int| is_first_of(records, author, k);
        assert(records[k].author == author);
    }
}

} // verus!
