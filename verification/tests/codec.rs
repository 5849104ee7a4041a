use ragegun::serializer::decoder::{
    deserialize, establish_freqs, is_noise_word, revision_message, try_deserialize_Nov2022A,
    try_deserialize_original, Action,
};
use ragegun::serializer::feedback::push_decimal;
use ragegun::serializer::encoder::{
    count_words, encode_header, encode_record, push_count, serialize_with_writer,
};
use ragegun::serializer::extractor::{extract_from_records, extract_user};
use ragegun::serializer::format::{starts_with_magic, RGFileFormat};
use ragegun::serializer::integers::{push_be, read_be};
use ragegun::serializer::{FnFeedback, Marker};
use ragegun::table::{AuthorFrequencyTable, WordFrequencyTable};

fn words(entries: &[(&[u8], u64)]) -> WordFrequencyTable {
    let mut table = WordFrequencyTable::new();
    for (word, count) in entries {
        table.insert(word.to_vec(), *count);
    }
    table
}

fn authors(entries: &[(&[u8], &[(&[u8], u64)])]) -> AuthorFrequencyTable {
    let mut table = AuthorFrequencyTable::new();
    for (author, list) in entries {
        table.insert(author.to_vec(), words(list));
    }
    table
}

fn encode(table: &AuthorFrequencyTable) -> Vec<u8> {
    let mut out = Vec::new();
    serialize_with_writer(table, &mut out, |_| {});
    out
}

fn header(authors: u64, words: u64) -> Vec<u8> {
    let mut out = b"ragegun".to_vec();
    out.extend_from_slice(&1u32.to_be_bytes());
    out.extend_from_slice(&authors.to_be_bytes());
    out.extend_from_slice(&words.to_be_bytes());
    out
}

#[test]
fn alice_is_written_byte_for_byte() {
    let table = authors(&[(b"alice", &[(b"cat", 2), (b"dog", 300)])]);
    let bytes = encode(&table);
    let mut expected = header(1, 2);
    expected.extend_from_slice(b"alice");
    expected.extend_from_slice(&[245, 0]);
    expected.extend_from_slice(b"cat");
    expected.extend_from_slice(&[2, 255, 0]);
    expected.extend_from_slice(b"dog");
    expected.extend_from_slice(&[0, 0, 1, 44, 254, 0]);
    expected.extend_from_slice(&[244, 0]);
    expected.extend_from_slice(&[243, 0]);
    assert_eq!(bytes, expected);
}

#[test]
fn alice_comes_back_as_she_was() {
    let table = authors(&[(b"alice", &[(b"cat", 2), (b"dog", 300)])]);
    let bytes = encode(&table);
    let back = deserialize(&bytes, |_| {});
    assert_eq!(back, table);
    assert_eq!(back.len(), 1);
    let alice = back.get(b"alice").unwrap();
    assert_eq!(alice.len(), 2);
    assert_eq!(alice.get(b"cat"), Some(2));
    assert_eq!(alice.get(b"dog"), Some(300));
}

#[test]
fn round_trip_of_several_authors() {
    let table = authors(&[
        (b"zed", &[(b"a", 1), (b"b", 70000), (b"c", 1 << 40)]),
        (b"bob", &[]),
        (b"alice", &[(b"cat", 2), (b"dog", 300), (b"zebra", u64::MAX)]),
        (b"", &[(b"x", 0)]),
    ]);
    let bytes = encode(&table);
    assert_eq!(deserialize(&bytes, |_| {}), table);
    assert_eq!(try_deserialize_Nov2022A(&bytes, |_| {}), table);
    assert_eq!(try_deserialize_original(&bytes[27..], |_| {}), table);
}

#[test]
fn round_trip_of_the_empty_table() {
    let table = AuthorFrequencyTable::new();
    let bytes = encode(&table);
    let mut expected = header(0, 0);
    expected.extend_from_slice(&[243, 0]);
    assert_eq!(bytes, expected);
    assert_eq!(deserialize(&bytes, |_| {}), table);
}

#[test]
fn authors_and_words_are_written_in_sorted_order() {
    let mut table = AuthorFrequencyTable::new();
    table.insert(b"b".to_vec(), words(&[(b"y", 1), (b"x", 2)]));
    table.insert(b"a".to_vec(), words(&[(b"q", 3)]));
    table.insert(b"ab".to_vec(), WordFrequencyTable::new());
    let bytes = encode(&table);
    let mut expected = header(3, 3);
    expected.extend_from_slice(&[b'a', 245, 0, b'q', 3, 255, 0, 244, 0]);
    expected.extend_from_slice(&[b'a', b'b', 245, 0, 244, 0]);
    expected.extend_from_slice(&[b'b', 245, 0, b'x', 2, 255, 0, b'y', 1, 255, 0, 244, 0]);
    expected.extend_from_slice(&[243, 0]);
    assert_eq!(bytes, expected);
}

#[test]
fn the_writer_is_appended_to() {
    let table = authors(&[(b"a", &[(b"w", 1)])]);
    let mut out = vec![9u8, 8, 7];
    serialize_with_writer(&table, &mut out, |_| {});
    assert_eq!(&out[..3], &[9, 8, 7]);
    assert_eq!(&out[3..], &encode(&table)[..]);
}

#[test]
fn width_of_255_is_one_byte() {
    let mut out = Vec::new();
    push_count(&mut out, 255);
    assert_eq!(out, vec![255, 255, 0]);
}

#[test]
fn width_of_256_is_four_bytes() {
    let mut out = Vec::new();
    push_count(&mut out, 256);
    assert_eq!(out, vec![0, 0, 1, 0, 254, 0]);
}

#[test]
fn width_of_4294967295_is_four_bytes() {
    let mut out = Vec::new();
    push_count(&mut out, 4294967295);
    assert_eq!(out, vec![255, 255, 255, 255, 254, 0]);
}

#[test]
fn width_of_4294967296_is_eight_bytes() {
    let mut out = Vec::new();
    push_count(&mut out, 4294967296);
    assert_eq!(out, vec![0, 0, 0, 1, 0, 0, 0, 0, 253, 0]);
}

#[test]
fn width_of_zero_and_of_the_largest_count() {
    let mut out = Vec::new();
    push_count(&mut out, 0);
    assert_eq!(out, vec![0, 255, 0]);
    let mut out = Vec::new();
    push_count(&mut out, u64::MAX);
    assert_eq!(out, vec![255, 255, 255, 255, 255, 255, 255, 255, 253, 0]);
}

#[test]
fn widths_survive_the_round_trip() {
    let table = authors(&[(
        b"u",
        &[(b"a", 255), (b"b", 256), (b"c", 4294967295), (b"d", 4294967296)],
    )]);
    let back = deserialize(&encode(&table), |_| {});
    let u = back.get(b"u").unwrap();
    assert_eq!(u.get(b"a"), Some(255));
    assert_eq!(u.get(b"b"), Some(256));
    assert_eq!(u.get(b"c"), Some(4294967295));
    assert_eq!(u.get(b"d"), Some(4294967296));
}

#[test]
fn big_endian_bytes_are_written_and_read() {
    let mut out = vec![7u8];
    push_be(&mut out, 0x0102_0304, 4);
    assert_eq!(out, vec![7, 1, 2, 3, 4]);
    push_be(&mut out, 0x0102_0304, 2);
    assert_eq!(out, vec![7, 1, 2, 3, 4, 3, 4]);
    push_be(&mut out, 5, 0);
    assert_eq!(out.len(), 7);
    assert_eq!(read_be(&[]), 0);
    assert_eq!(read_be(&[1, 44]), 300);
    assert_eq!(read_be(&[255; 8]), u64::MAX);
    assert_eq!(read_be(&[0, 0, 0, 1, 0, 0, 0, 0]), 4294967296);
}

#[test]
fn header_holds_magic_version_and_counts() {
    let mut out = Vec::new();
    encode_header(&mut out, 3, 0x0102);
    assert_eq!(out, header(3, 0x0102));
    assert_eq!(out.len(), 27);
    assert_eq!(&out[..7], b"ragegun");
    assert_eq!(&out[7..11], &[0, 0, 0, 1]);
    assert_eq!(&out[25..], &[1, 2]);
}

#[test]
fn record_of_one_author() {
    let mut out = Vec::new();
    encode_record(&mut out, b"al", &words(&[(b"dog", 300), (b"cat", 2)]));
    assert_eq!(
        out,
        vec![b'a', b'l', 245, 0, b'c', b'a', b't', 2, 255, 0, b'd', b'o', b'g', 0, 0, 1, 44, 254, 0, 244, 0]
    );
}

#[test]
fn word_count_of_the_header_is_the_sum() {
    let table = authors(&[(b"a", &[(b"x", 1), (b"y", 1)]), (b"b", &[(b"x", 1)]), (b"c", &[])]);
    assert_eq!(count_words(&table), Some(3));
    let bytes = encode(&table);
    assert_eq!(RGFileFormat::from_buf(&bytes), RGFileFormat::Nov2022A(3, 3));
}

#[test]
fn marker_of_each_tag() {
    assert_eq!(Marker::from_byte(255), Marker::FreqU8);
    assert_eq!(Marker::from_byte(254), Marker::FreqU32);
    assert_eq!(Marker::from_byte(253), Marker::FreqU64);
    assert_eq!(Marker::from_byte(245), Marker::Author);
    assert_eq!(Marker::from_byte(244), Marker::AuthorEnd);
    assert_eq!(Marker::from_byte(243), Marker::End);
    for byte in 0..=255u8 {
        let reserved = (243..=245).contains(&byte) || byte >= 253;
        assert_eq!(Marker::from_byte(byte) != Marker::Unknown, reserved);
        assert_eq!(Marker::from(byte), Marker::from_byte(byte));
    }
}

#[test]
fn marker_of_a_trailing_pair() {
    assert_eq!(Marker::from(&[][..]), Marker::Unknown);
    assert_eq!(Marker::from(&[245u8][..]), Marker::Unknown);
    assert_eq!(Marker::from(&[245u8, 0][..]), Marker::Author);
    assert_eq!(Marker::from(&[1u8, 2, 243, 0][..]), Marker::End);
    assert_eq!(Marker::from(&[1u8, 2, 3, 0][..]), Marker::Unknown);
}

#[test]
fn format_too_short() {
    assert_eq!(RGFileFormat::from_buf(&[]), RGFileFormat::TooShort);
    assert_eq!(RGFileFormat::from_buf(b"ragegun\0\0"), RGFileFormat::TooShort);
}

#[test]
fn format_of_each_kind() {
    assert_eq!(RGFileFormat::from_buf(&header(7, 9)), RGFileFormat::Nov2022A(7, 9));
    let mut other = header(7, 9);
    other[10] = 2;
    assert_eq!(RGFileFormat::from_buf(&other), RGFileFormat::Unknown);
    let mut no_magic = header(7, 9);
    no_magic[0] = b'R';
    assert_eq!(RGFileFormat::from_buf(&no_magic), RGFileFormat::Unknown);
    assert_eq!(RGFileFormat::from_buf(&header(7, 9)[..26]), RGFileFormat::Unknown);
    assert_eq!(RGFileFormat::from_buf(b"ragegun\0\0\0"), RGFileFormat::Unknown);
    assert_eq!(RGFileFormat::from_buf(&[1u8; 40]), RGFileFormat::Unknown);
    assert_eq!(
        RGFileFormat::from_buf(&header(u64::MAX, 1 << 40)),
        RGFileFormat::Nov2022A(u64::MAX, 1 << 40)
    );
}

#[test]
fn format_of_header_fields() {
    assert_eq!(RGFileFormat::from_byte(true, 1, 2, 3), RGFileFormat::Nov2022A(2, 3));
    assert_eq!(RGFileFormat::from_byte(false, 1, 2, 3), RGFileFormat::Unknown);
    assert_eq!(RGFileFormat::from_byte(true, 0, 2, 3), RGFileFormat::Unknown);
    assert_eq!(RGFileFormat::from_byte(true, 2, 2, 3), RGFileFormat::Unknown);
}

#[test]
fn magic_is_looked_for_at_the_start() {
    assert!(starts_with_magic(b"ragegun"));
    assert!(starts_with_magic(b"ragegun and more"));
    assert!(!starts_with_magic(b"ragegu"));
    assert!(!starts_with_magic(b"xragegun"));
    assert!(!starts_with_magic(b"ragegum"));
}

#[test]
fn counts_are_read_from_the_end_of_the_frame() {
    assert_eq!(establish_freqs(&Marker::FreqU8, b"cat\x02"), Action::FreqWordOffset(2, 1));
    assert_eq!(
        establish_freqs(&Marker::FreqU32, b"dog\x00\x00\x01\x2c"),
        Action::FreqWordOffset(300, 4)
    );
    assert_eq!(
        establish_freqs(&Marker::FreqU64, &[b'w', 0, 0, 0, 1, 0, 0, 0, 0]),
        Action::FreqWordOffset(4294967296, 8)
    );
    assert_eq!(establish_freqs(&Marker::FreqU8, &[9]), Action::FreqWordOffset(9, 1));
}

#[test]
fn frames_without_a_count() {
    assert_eq!(establish_freqs(&Marker::FreqU8, &[]), Action::Continue);
    assert_eq!(establish_freqs(&Marker::FreqU32, &[1, 2, 3]), Action::Continue);
    assert_eq!(establish_freqs(&Marker::FreqU64, &[1, 2, 3, 4, 5, 6, 7]), Action::Continue);
    assert_eq!(establish_freqs(&Marker::Author, b"cat\x02"), Action::Continue);
    assert_eq!(establish_freqs(&Marker::AuthorEnd, b"cat\x02"), Action::Continue);
    assert_eq!(establish_freqs(&Marker::End, b"cat\x02"), Action::Continue);
    assert_eq!(establish_freqs(&Marker::Unknown, b"cat\x02"), Action::Continue);
}

#[test]
fn noise_is_told_from_words() {
    assert!(is_noise_word(b"12345"));
    assert!(is_noise_word(b"seehttpexample"));
    assert!(is_noise_word(b"http"));
    assert!(is_noise_word(b"xhttp"));
    assert!(is_noise_word(b"0"));
    assert!(is_noise_word(b""));
    assert!(!is_noise_word(b"htt"));
    assert!(!is_noise_word(b"htxtp"));
    assert!(!is_noise_word(b"123a5"));
    assert!(!is_noise_word(b"a"));
    assert!(!is_noise_word(b"HTTP"));
    assert!(!is_noise_word(b"12/"));
    assert!(!is_noise_word(b"12:"));
}

#[test]
fn noise_is_left_out_of_the_table() {
    let mut stream = Vec::new();
    stream.extend_from_slice(b"alice\xf5\x00");
    stream.extend_from_slice(b"12345\x07\xff\x00");
    stream.extend_from_slice(b"seehttpexample\x07\xff\x00");
    stream.extend_from_slice(b"cat\x02\xff\x00");
    stream.extend_from_slice(b"\x09\xff\x00");
    stream.extend_from_slice(b"\xf4\x00\xf3\x00");
    let table = try_deserialize_original(&stream, |_| {});
    assert_eq!(table, authors(&[(b"alice", &[(b"cat", 2)])]));
    let alice = table.get(b"alice").unwrap();
    assert_eq!(alice.get(b"12345"), None);
    assert_eq!(alice.get(b"seehttpexample"), None);
    assert_eq!(alice.get(b""), None);
    let found = extract_from_records(&stream, b"alice", |_| {}).unwrap();
    assert_eq!(found, words(&[(b"cat", 2)]));
}

#[test]
fn noise_written_by_the_encoder_is_left_out_too() {
    let table = authors(&[(b"alice", &[(b"12345", 1), (b"seehttpexample", 2), (b"cat", 3)])]);
    let back = deserialize(&encode(&table), |_| {});
    assert_eq!(back, authors(&[(b"alice", &[(b"cat", 3)])]));
}

#[test]
fn extraction_gives_what_decoding_gives() {
    let table = authors(&[
        (b"alice", &[(b"cat", 2), (b"dog", 300)]),
        (b"bob", &[(b"eel", 5)]),
        (b"carol", &[]),
    ]);
    let bytes = encode(&table);
    let decoded = deserialize(&bytes, |_| {});
    for user in ["alice", "bob", "carol"] {
        let found = extract_user(&bytes, user, |_| {});
        assert_eq!(found.as_ref(), decoded.get(user.as_bytes()));
        assert!(found.is_some());
    }
    assert_eq!(extract_user(&bytes, "dave", |_| {}), None);
    assert_eq!(extract_user(&bytes, "alic", |_| {}), None);
    assert_eq!(extract_user(&bytes, "alicee", |_| {}), None);
    assert_eq!(extract_user(&bytes, "", |_| {}), None);
    assert_eq!(
        extract_user(&bytes, "alice", |_| {}),
        Some(words(&[(b"cat", 2), (b"dog", 300)]))
    );
}

#[test]
fn extraction_from_records_without_a_header() {
    let table = authors(&[(b"alice", &[(b"cat", 2)]), (b"bob", &[(b"eel", 5)])]);
    let bytes = encode(&table);
    let stream = &bytes[27..];
    assert_eq!(extract_from_records(stream, b"alice", |_| {}), Some(words(&[(b"cat", 2)])));
    assert_eq!(extract_from_records(stream, b"bob", |_| {}), Some(words(&[(b"eel", 5)])));
    assert_eq!(extract_from_records(stream, b"eve", |_| {}), None);
    assert_eq!(extract_user(stream, "bob", |_| {}), Some(words(&[(b"eel", 5)])));
}

#[test]
fn extraction_ends_with_the_first_match() {
    let mut stream = Vec::new();
    stream.extend_from_slice(b"bob\xf5\x00one\x01\xff\x00\xf4\x00");
    stream.extend_from_slice(b"bob\xf5\x00two\x02\xff\x00\xf4\x00");
    stream.extend_from_slice(b"\xf3\x00");
    assert_eq!(extract_from_records(&stream, b"bob", |_| {}), Some(words(&[(b"one", 1)])));
    let table = try_deserialize_original(&stream, |_| {});
    assert_eq!(table, authors(&[(b"bob", &[(b"two", 2)])]));
    let mut broken = b"bob\xf5\x00one\x01\xff\x00\xf4\x00".to_vec();
    broken.extend_from_slice(&[1, 2, 3, 255, 0, 9, 9]);
    assert_eq!(extract_from_records(&broken, b"bob", |_| {}), Some(words(&[(b"one", 1)])));
}

#[test]
fn extraction_of_an_author_that_was_not_closed() {
    assert_eq!(extract_from_records(b"bob\xf5\x00one\x01\xff\x00", b"bob", |_| {}), None);
    assert_eq!(extract_from_records(b"bob\xf5\x00one\x01\xff\x00\xf3\x00", b"bob", |_| {}), None);
    assert_eq!(
        extract_from_records(b"bob\xf5\x00one\x01\xff\x00bob\xf5\x00\xf4\x00", b"bob", |_| {}),
        Some(WordFrequencyTable::new())
    );
    assert_eq!(extract_user(b"bob\xf5\x00", "bob", |_| {}), None);
}

#[test]
fn legacy_buffer_is_read_alike_by_both_entry_points() {
    let mut stream = Vec::new();
    stream.extend_from_slice(b"alice\xf5\x00cat\x02\xff\x00dog\x00\x00\x01\x2c\xfe\x00\xf4\x00");
    stream.extend_from_slice(b"bob\xf5\x00eel\x05\xff\x00\xf4\x00\xf3\x00");
    let direct = try_deserialize_original(&stream, |_| {});
    let detected = deserialize(&stream, |_| {});
    assert_eq!(direct, detected);
    assert_eq!(
        direct,
        authors(&[(b"alice", &[(b"cat", 2), (b"dog", 300)]), (b"bob", &[(b"eel", 5)])])
    );
}

#[test]
fn unknown_version_is_read_as_records() {
    let table = authors(&[(b"alice", &[(b"cat", 2)])]);
    let mut bytes = encode(&table);
    bytes[10] = 2;
    let direct = try_deserialize_original(&bytes, |_| {});
    assert_eq!(deserialize(&bytes, |_| {}), direct);
    let mut author = bytes[..27].to_vec();
    author.extend_from_slice(b"alice");
    assert_eq!(direct, authors(&[(&author, &[(b"cat", 2)])]));
}

#[test]
fn short_buffer_gives_nothing() {
    let stream = b"a\xf5\x00\xf4\x00\xf3\x00";
    assert_eq!(stream.len(), 7);
    assert_eq!(deserialize(stream, |_| {}), AuthorFrequencyTable::new());
    assert_eq!(extract_user(stream, "a", |_| {}), None);
    assert_eq!(try_deserialize_original(stream, |_| {}), authors(&[(b"a", &[])]));
    assert_eq!(deserialize(&[], |_| {}), AuthorFrequencyTable::new());
    assert_eq!(try_deserialize_original(&[], |_| {}), AuthorFrequencyTable::new());
}

#[test]
fn header_alone_holds_no_records() {
    assert_eq!(try_deserialize_Nov2022A(&header(0, 0), |_| {}), AuthorFrequencyTable::new());
    assert_eq!(deserialize(&header(5, 5), |_| {}), AuthorFrequencyTable::new());
    assert_eq!(extract_user(&header(5, 5), "a", |_| {}), None);
}

#[test]
fn header_bytes_are_not_read_as_records() {
    let mut bytes = header(0xf500, 0xf300);
    bytes.extend_from_slice(b"al\xf5\x00w\x01\xff\x00\xf4\x00\xf3\x00");
    assert_eq!(deserialize(&bytes, |_| {}), authors(&[(b"al", &[(b"w", 1)])]));
    assert_eq!(extract_user(&bytes, "al", |_| {}), Some(words(&[(b"w", 1)])));
}

#[test]
fn missing_end_marker_gives_what_was_closed() {
    let stream = b"alice\xf5\x00cat\x02\xff\x00\xf4\x00bob\xf5\x00eel\x05\xff\x00";
    let table = try_deserialize_original(stream, |_| {});
    assert_eq!(table, authors(&[(b"alice", &[(b"cat", 2)])]));
}

#[test]
fn end_marker_ends_the_scan() {
    let stream = b"alice\xf5\x00cat\x02\xff\x00\xf4\x00\xf3\x00bob\xf5\x00eel\x05\xff\x00\xf4\x00";
    let table = try_deserialize_original(stream, |_| {});
    assert_eq!(table, authors(&[(b"alice", &[(b"cat", 2)])]));
    let open = b"alice\xf5\x00cat\x02\xff\x00\xf3\x00\xf4\x00";
    assert_eq!(try_deserialize_original(open, |_| {}), AuthorFrequencyTable::new());
}

#[test]
fn author_marker_inside_a_record_opens_a_new_author() {
    let stream = b"alice\xf5\x00cat\x02\xff\x00bob\xf5\x00eel\x05\xff\x00\xf4\x00\xf3\x00";
    let table = try_deserialize_original(stream, |_| {});
    assert_eq!(table, authors(&[(b"bob", &[(b"eel", 5)])]));
    assert_eq!(extract_from_records(stream, b"alice", |_| {}), None);
    assert_eq!(extract_from_records(stream, b"bob", |_| {}), Some(words(&[(b"eel", 5)])));
}

#[test]
fn markers_without_an_open_author_are_passed_over() {
    let stream = b"junk\x01\xff\x00more\xf4\x00\xfe\x00\xfd\x00alice\xf5\x00cat\x02\xff\x00\xf4\x00\xf3\x00";
    let table = try_deserialize_original(stream, |_| {});
    assert_eq!(table, authors(&[(b"alice", &[(b"cat", 2)])]));
}

#[test]
fn frames_too_short_for_their_count_are_passed_over() {
    let stream = b"a\xf5\x00xy\xfe\x00cat\x02\xff\x00\xfd\x00\xff\x00\xf4\x00\xf3\x00";
    let table = try_deserialize_original(stream, |_| {});
    assert_eq!(table, authors(&[(b"a", &[(b"cat", 2)])]));
}

#[test]
fn later_count_of_a_word_replaces_the_earlier() {
    let stream = b"a\xf5\x00cat\x02\xff\x00cat\x09\xff\x00\xf4\x00\xf3\x00";
    let table = try_deserialize_original(stream, |_| {});
    assert_eq!(table, authors(&[(b"a", &[(b"cat", 9)])]));
}

#[test]
fn zero_without_a_tag_in_front_is_data() {
    let stream = b"\x00a\x00\xf5\x00c\x00t\x00\x02\xff\x00\xf4\x00\xf3\x00";
    let table = try_deserialize_original(stream, |_| {});
    assert_eq!(table, authors(&[(b"\x00a\x00", &[(b"c\x00t\x00", 2)])]));
    let tag_first = b"\xf5\x00\xf4\x00\xf3\x00";
    assert_eq!(try_deserialize_original(tag_first, |_| {}), authors(&[(b"", &[])]));
    let tag_alone = b"\xf5\xf4\xf3\xff\xfe\xfd";
    assert_eq!(try_deserialize_original(tag_alone, |_| {}), AuthorFrequencyTable::new());
}

#[test]
fn spurious_marker_costs_the_words_of_its_frame_only() {
    let table = authors(&[
        (b"alice", &[(b"cat", 2), (b"dog", 300), (b"emu", 4)]),
        (b"bob", &[(b"eel", 5)]),
    ]);
    let bytes = encode(&table);
    let at = bytes.windows(3).position(|w| w == b"dog").unwrap() + 1;
    for tag in [255u8, 254, 253] {
        let mut broken = bytes.clone();
        broken.insert(at, 0);
        broken.insert(at, tag);
        let back = deserialize(&broken, |_| {});
        assert_eq!(back.len(), 2);
        assert_eq!(back.get(b"bob"), table.get(b"bob"));
        let alice = back.get(b"alice").unwrap();
        assert_eq!(alice.get(b"cat"), Some(2));
        assert_eq!(alice.get(b"emu"), Some(4));
        assert_eq!(alice.get(b"dog"), None);
    }
}

#[test]
fn spurious_marker_of_any_kind_does_not_stop_the_decoder() {
    let table = authors(&[
        (b"alice", &[(b"cat", 2), (b"dog", 300), (b"emu", 4)]),
        (b"bob", &[(b"eel", 5)]),
    ]);
    let bytes = encode(&table);
    for at in 27..=bytes.len() {
        for tag in [243u8, 244, 245, 253, 254, 255] {
            let mut broken = bytes.clone();
            broken.insert(at, 0);
            broken.insert(at, tag);
            let back = deserialize(&broken, |_| {});
            assert!(back.len() <= 3);
            let _ = extract_user(&broken, "bob", |_| {});
        }
    }
}

#[test]
fn every_cut_of_a_container_is_read() {
    let table = authors(&[(b"alice", &[(b"cat", 2), (b"dog", 300)]), (b"bob", &[(b"eel", 5)])]);
    let bytes = encode(&table);
    for cut in 0..bytes.len() {
        let back = deserialize(&bytes[..cut], |_| {});
        assert!(back.len() <= 2);
        let _ = extract_user(&bytes[..cut], "alice", |_| {});
    }
}

#[test]
fn colliding_count_is_a_known_limit() {
    let table = authors(&[(b"a", &[(b"w", 0xf500)])]);
    let back = deserialize(&encode(&table), |_| {});
    assert_ne!(back, table);
}

#[test]
fn encoder_tells_its_observer() {
    let table = authors(&[(b"a", &[(b"w", 1)]), (b"b", &[])]);
    let mut events = Vec::new();
    let mut out = Vec::new();
    serialize_with_writer(&table, &mut out, |e| events.push(e));
    assert_eq!(
        events,
        vec![FnFeedback::Message("Saving: Writing authors..".to_string()), FnFeedback::Total(2)]
    );
}

#[test]
fn encoder_reports_every_thousandth_author() {
    let mut table = AuthorFrequencyTable::new();
    for i in 0..2500u32 {
        table.insert(format!("user{:05}", i).into_bytes(), WordFrequencyTable::new());
    }
    let mut progress = Vec::new();
    let mut out = Vec::new();
    serialize_with_writer(&table, &mut out, |e| {
        if let FnFeedback::Progress(n) = e {
            progress.push(n);
        }
    });
    assert_eq!(progress, vec![1000, 2000]);
    assert_eq!(deserialize(&out, |_| {}), table);
}

#[test]
fn decoder_tells_its_observer() {
    let table = authors(&[(b"a", &[(b"w", 1)]), (b"b", &[])]);
    let bytes = encode(&table);
    let mut events = Vec::new();
    deserialize(&bytes, |e| events.push(e));
    assert_eq!(
        events,
        vec![
            FnFeedback::Message("Loading: File format is Nov2022A (2 authors, 1 words)".to_string()),
            FnFeedback::Total(2),
            FnFeedback::Message("Reading: Loading authors..".to_string()),
            FnFeedback::Progress(0),
            FnFeedback::Progress(1),
            FnFeedback::Progress(2),
        ]
    );
}

#[test]
fn decoder_tells_of_unknown_and_short_buffers() {
    let mut events = Vec::new();
    deserialize(&[1u8; 12], |e| events.push(e));
    assert_eq!(
        events,
        vec![
            FnFeedback::Message("Loading: File format is unknown, assuming classic".to_string()),
            FnFeedback::Message("Reading: Loading authors..".to_string()),
            FnFeedback::Progress(0),
        ]
    );
    let mut events = Vec::new();
    deserialize(&[1u8; 3], |e| events.push(e));
    assert_eq!(events, vec![FnFeedback::Message("Loading: File is too short".to_string())]);
}

#[test]
fn decoder_reports_every_thousandth_byte() {
    let data = vec![b'x'; 2001];
    let mut progress = Vec::new();
    let table = try_deserialize_original(&data, |e| {
        if let FnFeedback::Progress(n) = e {
            progress.push(n);
        }
    });
    assert_eq!(progress, vec![0, 1000, 2000]);
    assert_eq!(table, AuthorFrequencyTable::new());
}

#[test]
fn extractor_tells_its_observer() {
    let stream = b"a\xf5\x00w\x01\xff\x00\xf4\x00\xf3\x00";
    let mut events = Vec::new();
    extract_from_records(stream, b"zz", |e| events.push(e));
    assert_eq!(
        events,
        vec![
            FnFeedback::Message("Reading: Loading authors..".to_string()),
            FnFeedback::Total(11),
            FnFeedback::Progress(0),
        ]
    );
}

#[test]
fn colliding_count_may_part_extraction_from_decoding() {
    let table = authors(&[(b"x", &[(b"w", 0x01f4_0078_f500_0102), (b"y", 5)])]);
    let bytes = encode(&table);
    let decoded = deserialize(&bytes, |_| {});
    assert_eq!(decoded, authors(&[(b"x", &[(b"y", 5)])]));
    assert_eq!(extract_user(&bytes, "x", |_| {}), Some(WordFrequencyTable::new()));
}

#[test]
fn names_of_the_codec_are_found_where_they_were() {
    let table = authors(&[(b"a", &[(b"w", 1)])]);
    let mut out = Vec::new();
    ragegun::serializer::serialize_with_writer(&table, &mut out, |_| {});
    assert_eq!(ragegun::serializer::deserialize(&out, |_| {}), table);
    assert_eq!(ragegun::serializer::try_deserialize_Nov2022A(&out, |_| {}), table);
    assert_eq!(ragegun::serializer::try_deserialize_original(&out[27..], |_| {}), table);
    assert_eq!(ragegun::serializer::extract_user(&out, "a", |_| {}), Some(words(&[(b"w", 1)])));
    assert_eq!(
        ragegun::serializer::establish_freqs(&ragegun::serializer::Marker::FreqU8, &[1]),
        ragegun::serializer::Action::FreqWordOffset(1, 1)
    );
    assert_eq!(
        ragegun::serializer::RGFileFormat::from_buf(&out),
        ragegun::serializer::RGFileFormat::Nov2022A(1, 1)
    );
    let item = ragegun::text::text_item::TextItem::new();
    assert_eq!(item.word_freqs.len(), 0);
}

#[test]
fn numbers_are_written_in_decimal() {
    let mut text = String::from("n=");
    push_decimal(&mut text, 0);
    assert_eq!(text, "n=0");
    push_decimal(&mut text, 9);
    push_decimal(&mut text, 10);
    push_decimal(&mut text, 1234567890);
    assert_eq!(text, "n=09101234567890");
    let mut text = String::new();
    push_decimal(&mut text, u64::MAX);
    assert_eq!(text, "18446744073709551615");
}

#[test]
fn revision_is_announced_with_its_counts() {
    assert_eq!(
        revision_message(12, 3450),
        "Loading: File format is Nov2022A (12 authors, 3450 words)"
    );
    assert_eq!(revision_message(0, 0), "Loading: File format is Nov2022A (0 authors, 0 words)");
}

#[test]
fn buffer_shorter_than_a_header_has_no_records_behind_it() {
    assert_eq!(try_deserialize_Nov2022A(&[], |_| {}), AuthorFrequencyTable::new());
    assert_eq!(
        try_deserialize_Nov2022A(b"a\xf5\x00\xf4\x00\xf3\x00", |_| {}),
        AuthorFrequencyTable::new()
    );
    let mut bytes = vec![7u8; 27];
    bytes.extend_from_slice(b"a\xf5\x00\xf4\x00\xf3\x00");
    assert_eq!(try_deserialize_Nov2022A(&bytes, |_| {}), authors(&[(b"a", &[])]));
}

#[test]
fn spurious_marker_of_another_kind_may_cost_more() {
    let table = authors(&[
        (b"alice", &[(b"cat", 2), (b"dog", 300), (b"emu", 4)]),
        (b"bob", &[(b"eel", 5)]),
    ]);
    let bytes = encode(&table);
    let at = bytes.windows(3).position(|w| w == b"dog").unwrap() + 1;
    let mut closed = bytes.clone();
    closed.insert(at, 0);
    closed.insert(at, 244);
    assert_eq!(
        deserialize(&closed, |_| {}),
        authors(&[(b"alice", &[(b"cat", 2)]), (b"bob", &[(b"eel", 5)])])
    );
    let mut opened = bytes.clone();
    opened.insert(at, 0);
    opened.insert(at, 245);
    assert_eq!(
        deserialize(&opened, |_| {}),
        authors(&[(b"d", &[(b"og", 300), (b"emu", 4)]), (b"bob", &[(b"eel", 5)])])
    );
    let mut ended = bytes.clone();
    ended.insert(at, 0);
    ended.insert(at, 243);
    assert_eq!(deserialize(&ended, |_| {}), AuthorFrequencyTable::new());
}

#[test]
fn spurious_marker_may_change_the_count_of_another_word() {
    let table = authors(&[(b"al", &[(b"at", 5), (b"cat", 2)])]);
    let bytes = encode(&table);
    let at = bytes.windows(3).position(|w| w == b"cat").unwrap() + 1;
    let mut broken = bytes.clone();
    broken.insert(at, 0);
    broken.insert(at, 255);
    assert_eq!(deserialize(&broken, |_| {}), authors(&[(b"al", &[(b"at", 2)])]));
}
