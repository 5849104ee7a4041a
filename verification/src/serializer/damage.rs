//! What a marker that does not belong costs: a frequency marker put into a
//! frame of an open author loses that author the word of the frame at most.

use vstd::prelude::*;
use crate::serializer::encoder::marker_bytes;
use crate::serializer::marker::{is_reserved_tag, Marker};
use crate::serializer::scanner::{
    after_marker, completes_marker, decoded, frame_entry, initial, lemma_run_concat, run, step,
    table_of, with_frame, Record, ScanState,
};
use crate::serializer::stream::{lemma_run_token, marker_free};
use crate::table::{AuthorCounts, WordCounts};

verus! {

/// The tags of the markers that follow a count: 253 to 255.
pub open spec fn is_frequency_tag(tag: u8) -> bool {
    tag >= 253
}

/// The word that a frame in front of a frequency marker holds, if it holds
/// one.
pub open spec fn word_of_frame(tag: u8, frame: Seq<u8>) -> Option<Seq<u8>> {
    match frame_entry(Marker::of_byte(tag), frame) {
        Some(entry) => Some(entry.0),
        None => None,
    }
}

/// The broken words hold every sound word but, at most, the lost one.
pub open spec fn covers(sound: WordCounts, broken: WordCounts, lost: Option<Seq<u8>>) -> bool {
    forall|v: Seq<u8>| #[trigger] sound.contains_key(v) && lost != Some(v) ==> broken.contains_key(v)
}

/// The broken record is of the same author as the sound one, with the same
/// words or, where the author is the one whose frame was broken, with every
/// word but at most the lost one.
pub open spec fn record_kept(
    sound: Record,
    broken: Record,
    author: Seq<u8>,
    lost: Option<Seq<u8>>,
) -> bool {
    &&& sound.author == broken.author
    &&& sound.words == broken.words || (sound.author == author && covers(
        sound.words,
        broken.words,
        lost,
    ))
}

/// The broken state stands where the sound one stands, with every record
/// kept.
pub open spec fn state_kept(
    sound: ScanState,
    broken: ScanState,
    author: Seq<u8>,
    lost: Option<Seq<u8>>,
) -> bool {
    &&& sound.finished == broken.finished
    &&& sound.frame == broken.frame
    &&& sound.records.len() == broken.records.len()
    &&& forall|i: int|
        0 <= i < sound.records.len() ==> record_kept(
            #[trigger] sound.records[i],
            broken.records[i],
            author,
            lost,
        )
    &&& match sound.current {
        Some(open) => broken.current is Some && record_kept(
            open,
            broken.current->Some_0,
            author,
            lost,
        ),
        None => broken.current is None,
    }
}

/// The broken table holds every author of the sound one, with the same
/// words or, for the author whose frame was broken, with every word but at
/// most the lost one.
pub open spec fn table_kept(
    sound: AuthorCounts,
    broken: AuthorCounts,
    author: Seq<u8>,
    lost: Option<Seq<u8>>,
) -> bool {
    forall|b: Seq<u8>| #[trigger]
        sound.contains_key(b) ==> {
            &&& broken.contains_key(b)
            &&& b != author ==> broken[b] == sound[b]
            &&& covers(sound[b], broken[b], lost)
        }
}

/// A frame read into two records that are kept leaves them kept.
proof fn lemma_frame_kept(
    sound: Record,
    broken: Record,
    marker: Marker,
    frame: Seq<u8>,
    author: Seq<u8>,
    lost: Option<Seq<u8>>,
)
    requires
        record_kept(sound, broken, author, lost),
    ensures
        record_kept(with_frame(sound, marker, frame), with_frame(broken, marker, frame), author, lost),
{
    let s = with_frame(sound, marker, frame);
    let b = with_frame(broken, marker, frame);
    if sound.words != broken.words {
        assert forall|v: Seq<u8>| #[trigger] s.words.contains_key(v) && lost != Some(v) implies b.words.contains_key(
            v,
        ) by {
            if sound.words.contains_key(v) {
                assert(broken.words.contains_key(v));
            }
        }
    }
}

/// One byte read from two states that are kept leaves them kept.
pub proof fn lemma_step_kept(
    sound: ScanState,
    broken: ScanState,
    byte: u8,
    author: Seq<u8>,
    lost: Option<Seq<u8>>,
)
    requires
        state_kept(sound, broken, author, lost),
    ensures
        state_kept(step(sound, byte), step(broken, byte), author, lost),
{
    let s = step(sound, byte);
    let b = step(broken, byte);
    if !sound.finished && completes_marker(sound.frame, byte) {
        let marker = Marker::of_byte(sound.frame.last());
        let frame = sound.frame.drop_last();
        if sound.current is Some {
            lemma_frame_kept(
                sound.current->Some_0,
                broken.current->Some_0,
                marker,
                frame,
                author,
                lost,
            );
        }
        assert forall|i: int| 0 <= i < s.records.len() implies record_kept(
            #[trigger] s.records[i],
            b.records[i],
            author,
            lost,
        ) by {
            if i < sound.records.len() {
                assert(record_kept(sound.records[i], broken.records[i], author, lost));
            }
        }
    }
}

/// A run of bytes read from two states that are kept leaves them kept.
pub proof fn lemma_run_kept(
    sound: ScanState,
    broken: ScanState,
    bytes: Seq<u8>,
    author: Seq<u8>,
    lost: Option<Seq<u8>>,
)
    requires
        state_kept(sound, broken, author, lost),
    ensures
        state_kept(run(sound, bytes), run(broken, bytes), author, lost),
    decreases bytes.len(),
{
    if bytes.len() > 0 {
        lemma_run_kept(sound, broken, bytes.drop_last(), author, lost);
        lemma_step_kept(
            run(sound, bytes.drop_last()),
            run(broken, bytes.drop_last()),
            bytes.last(),
            author,
            lost,
        );
    }
}

/// Records that are kept make a table that is kept.
pub proof fn lemma_table_kept(
    sound: Seq<Record>,
    broken: Seq<Record>,
    author: Seq<u8>,
    lost: Option<Seq<u8>>,
)
    requires
        sound.len() == broken.len(),
        forall|i: int|
            0 <= i < sound.len() ==> record_kept(#[trigger] sound[i], broken[i], author, lost),
    ensures
        table_kept(table_of(sound), table_of(broken), author, lost),
    decreases sound.len(),
{
    if sound.len() > 0 {
        let s = sound.drop_last();
        let b = broken.drop_last();
        let last = sound.len() - 1;
        assert forall|i: int| 0 <= i < s.len() implies record_kept(
            #[trigger] s[i],
            b[i],
            author,
            lost,
        ) by {
            assert(record_kept(sound[i], broken[i], author, lost));
        }
        lemma_table_kept(s, b, author, lost);
        assert(record_kept(sound[last], broken[last], author, lost));
    }
}

/// A spurious frequency marker inside a frame of an open author does not
/// stop the scanner and costs that author the word of the frame at most.
/// Let the scanner, after the bytes `before`, stand at the start of a frame
/// with an author open, and let the frame `first + second`, which holds no
/// marker, be followed by a frequency marker and then by any bytes. If a
/// frequency marker is put between `first` and `second`, the table read
/// still holds every author that it held, every other author with the same
/// words and counts, and the open author with every word but, at most, the
/// one of the broken frame.
pub proof fn lemma_spurious_marker(
    before: Seq<u8>,
    first: Seq<u8>,
    second: Seq<u8>,
    tag: u8,
    after: Seq<u8>,
    spurious: u8,
)
    requires
        !run(initial(), before).finished,
        run(initial(), before).frame.len() == 0,
        run(initial(), before).current is Some,
        marker_free(first + second),
        is_frequency_tag(tag),
        is_frequency_tag(spurious),
    ensures
        table_kept(
            decoded(before + first + second + marker_bytes(tag) + after),
            decoded(before + first + marker_bytes(spurious) + second + marker_bytes(tag) + after),
            run(initial(), before).current->Some_0.author,
            word_of_frame(tag, first + second),
        ),
{
    let start = run(initial(), before);
    let open = start.current->Some_0;
    let author = open.author;
    let frame = first + second;
    let lost = word_of_frame(tag, frame);
    let sound_bytes = before + frame + marker_bytes(tag) + after;
    let broken_bytes = before + first + marker_bytes(spurious) + second + marker_bytes(tag) + after;
    assert(before + first + second + marker_bytes(tag) + after =~= sound_bytes);

    // the sound frame
    lemma_run_token(start, frame, tag);
    let sound_mid = after_marker(start, Marker::of_byte(tag), frame);
    lemma_run_concat(initial(), before, frame + marker_bytes(tag));
    lemma_run_concat(initial(), before + (frame + marker_bytes(tag)), after);
    assert(before + (frame + marker_bytes(tag)) + after =~= sound_bytes);

    // the two frames that the spurious marker makes of it
    assert forall|i: int| 0 <= i && i + 1 < first.len() implies !(is_reserved_tag(
        #[trigger] first[i],
    ) && first[i + 1] == 0) by {
        assert(first[i] == frame[i] && first[i + 1] == frame[i + 1]);
    }
    assert forall|i: int| 0 <= i && i + 1 < second.len() implies !(is_reserved_tag(
        #[trigger] second[i],
    ) && second[i + 1] == 0) by {
        assert(second[i] == frame[first.len() + i] && second[i + 1] == frame[first.len() + i + 1]);
    }
    lemma_run_token(start, first, spurious);
    let broken_half = after_marker(start, Marker::of_byte(spurious), first);
    lemma_run_token(broken_half, second, tag);
    let broken_mid = after_marker(broken_half, Marker::of_byte(tag), second);
    let both = (first + marker_bytes(spurious)) + (second + marker_bytes(tag));
    lemma_run_concat(start, first + marker_bytes(spurious), second + marker_bytes(tag));
    lemma_run_concat(initial(), before, both);
    lemma_run_concat(initial(), before + both, after);
    assert(before + both + after =~= broken_bytes);

    // from there on the two scans go in step
    let sound_open = with_frame(open, Marker::of_byte(tag), frame);
    let broken_open = with_frame(
        with_frame(open, Marker::of_byte(spurious), first),
        Marker::of_byte(tag),
        second,
    );
    assert(sound_mid.current == Some(sound_open));
    assert(broken_mid.current == Some(broken_open));
    assert forall|v: Seq<u8>| #[trigger] sound_open.words.contains_key(v) && lost != Some(
        v,
    ) implies broken_open.words.contains_key(v) by {
        assert(open.words.contains_key(v));
    }
    assert(state_kept(sound_mid, broken_mid, author, lost));
    lemma_run_kept(sound_mid, broken_mid, after, author, lost);
    let sound_end = run(sound_mid, after);
    let broken_end = run(broken_mid, after);
    lemma_table_kept(sound_end.records, broken_end.records, author, lost);
}

} // verus!
