use ragegun::order::{compare_keys, search, KeyOrder};
use ragegun::serializer::FnFeedback;
use ragegun::table::{AuthorFrequencyTable, WordFrequencyTable};
use ragegun::text::TextItem;

fn words(entries: &[(&[u8], u64)]) -> WordFrequencyTable {
    let mut table = WordFrequencyTable::new();
    for (word, count) in entries {
        table.insert(word.to_vec(), *count);
    }
    table
}

fn authors(entries: &[(&[u8], &[(&[u8], u64)])]) -> AuthorFrequencyTable {
    let mut table = AuthorFrequencyTable::new();
    for (author, list) in entries {
        table.insert(author.to_vec(), words(list));
    }
    table
}

fn merged(a: &AuthorFrequencyTable, b: &AuthorFrequencyTable) -> AuthorFrequencyTable {
    let mut sum = a.clone();
    assert!(sum.fits(b));
    sum.merge(b);
    sum
}

#[test]
fn keys_are_ordered_byte_by_byte() {
    assert_eq!(compare_keys(b"", b""), KeyOrder::Same);
    assert_eq!(compare_keys(b"", b"a"), KeyOrder::Before);
    assert_eq!(compare_keys(b"a", b""), KeyOrder::After);
    assert_eq!(compare_keys(b"a", b"ab"), KeyOrder::Before);
    assert_eq!(compare_keys(b"ab", b"b"), KeyOrder::Before);
    assert_eq!(compare_keys(b"b", b"ab"), KeyOrder::After);
    assert_eq!(compare_keys(b"abc", b"abc"), KeyOrder::Same);
    assert_eq!(compare_keys(b"ab\x00", b"ab"), KeyOrder::After);
    assert_eq!(compare_keys(b"\xff", b"\x7f\xff"), KeyOrder::After);
    let mut all: Vec<&[u8]> = vec![b"b", b"", b"ab", b"a", b"\xff", b"a\x00"];
    let mut expected = all.clone();
    expected.sort();
    all.sort_by(|x, y| match compare_keys(x, y) {
        KeyOrder::Before => std::cmp::Ordering::Less,
        KeyOrder::Same => std::cmp::Ordering::Equal,
        KeyOrder::After => std::cmp::Ordering::Greater,
    });
    assert_eq!(all, expected);
}

#[test]
fn search_finds_the_place_of_a_key() {
    let keys: Vec<Vec<u8>> = vec![b"a".to_vec(), b"c".to_vec(), b"e".to_vec()];
    assert_eq!(search(&keys, b"a"), (true, 0));
    assert_eq!(search(&keys, b"c"), (true, 1));
    assert_eq!(search(&keys, b"e"), (true, 2));
    assert_eq!(search(&keys, b""), (false, 0));
    assert_eq!(search(&keys, b"b"), (false, 1));
    assert_eq!(search(&keys, b"d"), (false, 2));
    assert_eq!(search(&keys, b"f"), (false, 3));
    assert_eq!(search(&Vec::new(), b"f"), (false, 0));
}

#[test]
fn word_table_keeps_one_count_for_each_word() {
    let mut table = WordFrequencyTable::new();
    assert!(table.is_empty());
    assert_eq!(table.insert(b"dog".to_vec(), 3), None);
    assert_eq!(table.insert(b"cat".to_vec(), 2), None);
    assert_eq!(table.insert(b"dog".to_vec(), 7), Some(3));
    assert_eq!(table.len(), 2);
    assert!(!table.is_empty());
    assert_eq!(table.get(b"dog"), Some(7));
    assert_eq!(table.get(b"cat"), Some(2));
    assert_eq!(table.get(b"ca"), None);
    assert_eq!(table.get(b"cats"), None);
    assert_eq!(table.word_at(0), b"cat");
    assert_eq!(table.count_at(0), 2);
    assert_eq!(table.word_at(1), b"dog");
    assert_eq!(table.count_at(1), 7);
}

#[test]
fn tables_are_equal_whatever_the_order_of_insertion() {
    let one = words(&[(b"a", 1), (b"b", 2), (b"c", 3)]);
    let two = words(&[(b"c", 3), (b"a", 1), (b"b", 2)]);
    assert_eq!(one, two);
    assert_eq!(one.clone(), one);
    assert_ne!(one, words(&[(b"a", 1), (b"b", 2), (b"c", 4)]));
    let x = authors(&[(b"u", &[(b"a", 1)]), (b"v", &[])]);
    let y = authors(&[(b"v", &[]), (b"u", &[(b"a", 1)])]);
    assert_eq!(x, y);
    assert_eq!(x.clone(), y);
}

#[test]
fn author_table_keeps_one_word_table_for_each_author() {
    let mut table = AuthorFrequencyTable::new();
    assert!(table.is_empty());
    table.insert(b"bob".to_vec(), words(&[(b"x", 1)]));
    table.insert(b"alice".to_vec(), words(&[(b"y", 2)]));
    table.insert(b"bob".to_vec(), words(&[(b"z", 3)]));
    assert_eq!(table.len(), 2);
    assert_eq!(table.author_at(0), b"alice");
    assert_eq!(table.author_at(1), b"bob");
    assert_eq!(table.table_at(1), &words(&[(b"z", 3)]));
    assert_eq!(table.get(b"bob"), Some(&words(&[(b"z", 3)])));
    assert_eq!(table.get(b"alice"), Some(&words(&[(b"y", 2)])));
    assert_eq!(table.get(b"carol"), None);
}

#[test]
fn merge_adds_counts_word_by_word() {
    let a = authors(&[(b"u", &[(b"x", 1), (b"y", 2)]), (b"v", &[(b"x", 5)])]);
    let b = authors(&[(b"u", &[(b"y", 10), (b"z", 20)]), (b"w", &[(b"q", 0)])]);
    let sum = merged(&a, &b);
    assert_eq!(
        sum,
        authors(&[
            (b"u", &[(b"x", 1), (b"y", 12), (b"z", 20)]),
            (b"v", &[(b"x", 5)]),
            (b"w", &[(b"q", 0)]),
        ])
    );
}

#[test]
fn merge_of_word_tables() {
    let mut a = words(&[(b"x", 1), (b"y", 2)]);
    let b = words(&[(b"y", 10), (b"z", 20)]);
    assert!(a.fits(&b));
    a.merge(&b);
    assert_eq!(a, words(&[(b"x", 1), (b"y", 12), (b"z", 20)]));
    a.merge(&WordFrequencyTable::new());
    assert_eq!(a, words(&[(b"x", 1), (b"y", 12), (b"z", 20)]));
}

#[test]
fn merge_does_not_depend_on_order_or_grouping() {
    let a = authors(&[(b"u", &[(b"x", 1), (b"y", 2)]), (b"v", &[(b"x", 5)])]);
    let b = authors(&[(b"u", &[(b"y", 10), (b"z", 20)]), (b"w", &[(b"q", 7)])]);
    let c = authors(&[(b"v", &[(b"x", 100)]), (b"w", &[]), (b"u", &[(b"x", 1000)])]);
    let left = merged(&merged(&a, &b), &c);
    let right = merged(&a, &merged(&b, &c));
    assert_eq!(left, right);
    assert_eq!(merged(&a, &b), merged(&b, &a));
    assert_eq!(merged(&merged(&c, &a), &b), left);
    assert_eq!(
        left,
        authors(&[
            (b"u", &[(b"x", 1001), (b"y", 12), (b"z", 20)]),
            (b"v", &[(b"x", 105)]),
            (b"w", &[(b"q", 7)]),
        ])
    );
}

#[test]
fn merge_with_the_empty_table_changes_nothing() {
    let a = authors(&[(b"u", &[(b"x", 1)])]);
    let none = AuthorFrequencyTable::new();
    assert_eq!(merged(&a, &none), a);
    assert_eq!(merged(&none, &a), a);
}

#[test]
fn sums_that_do_not_fit_are_told() {
    let a = authors(&[(b"u", &[(b"x", u64::MAX)])]);
    let b = authors(&[(b"u", &[(b"x", 1)])]);
    let c = authors(&[(b"u", &[(b"x", 0), (b"y", u64::MAX)]), (b"v", &[(b"x", u64::MAX)])]);
    assert!(!a.fits(&b));
    assert!(!b.fits(&a));
    assert!(a.fits(&c));
    assert!(c.fits(&a));
    assert!(a.fits(&AuthorFrequencyTable::new()));
    assert!(!words(&[(b"x", u64::MAX - 1)]).fits(&words(&[(b"x", 2)])));
    assert!(words(&[(b"x", u64::MAX - 1)]).fits(&words(&[(b"x", 1)])));
    let item = TextItem { word_freqs: a.clone() };
    assert!(!item.can_ingest(&b));
    assert!(item.can_ingest(&c));
}

#[test]
fn ingest_merges_and_tells_its_observer() {
    let mut item = TextItem::new();
    assert!(item.word_freqs.is_empty());
    let a = authors(&[(b"u", &[(b"x", 1), (b"y", 2)]), (b"v", &[(b"x", 5)])]);
    let b = authors(&[(b"u", &[(b"y", 10)]), (b"w", &[])]);
    let mut events = Vec::new();
    item.ingest(&a, |e| events.push(e));
    assert_eq!(item.word_freqs, a);
    assert_eq!(
        events,
        vec![
            FnFeedback::Message("Process: Processing authors..".to_string()),
            FnFeedback::Total(2),
            FnFeedback::Tick,
            FnFeedback::Tick,
        ]
    );
    item.ingest(&b, |_| {});
    assert_eq!(item.word_freqs, merged(&a, &b));
    assert_eq!(
        item.word_freqs,
        authors(&[(b"u", &[(b"x", 1), (b"y", 12)]), (b"v", &[(b"x", 5)]), (b"w", &[])])
    );
}

#[test]
fn chunks_merged_in_any_order_give_one_table() {
    let records: Vec<(&[u8], &str)> = vec![
        (b"u", "the cat and the dog"),
        (b"v", "a cat"),
        (b"u", "the end"),
        (b"w", ""),
        (b"v", "cat cat cat"),
    ];
    let parts: Vec<AuthorFrequencyTable> = records
        .iter()
        .map(|(author, text)| {
            let mut part = AuthorFrequencyTable::new();
            part.insert(author.to_vec(), TextItem::process_alt(text));
            part
        })
        .collect();
    let mut forward = AuthorFrequencyTable::new();
    for part in parts.iter() {
        forward.merge(part);
    }
    let mut backward = AuthorFrequencyTable::new();
    for part in parts.iter().rev() {
        backward.merge(part);
    }
    let tree = merged(&merged(&parts[0], &parts[1]), &merged(&parts[2], &merged(&parts[3], &parts[4])));
    assert_eq!(forward, backward);
    assert_eq!(forward, tree);
    assert_eq!(
        forward,
        authors(&[
            (b"u", &[(b"the", 3), (b"cat", 1), (b"and", 1), (b"dog", 1), (b"end", 1)]),
            (b"v", &[(b"a", 1), (b"cat", 4)]),
            (b"w", &[]),
        ])
    );
}

#[test]
fn slice_holds_the_authors_of_its_positions() {
    let table = authors(&[
        (b"a", &[(b"x", 1)]),
        (b"b", &[]),
        (b"c", &[(b"y", 2)]),
        (b"d", &[(b"z", 3)]),
    ]);
    assert_eq!(table.slice(1, 3), authors(&[(b"b", &[]), (b"c", &[(b"y", 2)])]));
    assert_eq!(table.slice(0, 4), table);
    assert_eq!(table.slice(2, 2), AuthorFrequencyTable::new());
    assert_eq!(table.slice(4, 4), AuthorFrequencyTable::new());
}

#[test]
fn chunks_cut_the_table_in_order() {
    let table = authors(&[
        (b"e", &[(b"v", 5)]),
        (b"a", &[(b"x", 1)]),
        (b"b", &[]),
        (b"c", &[(b"y", 2)]),
        (b"d", &[(b"z", 3)]),
    ]);
    let parts = table.chunks(2);
    assert_eq!(
        parts,
        vec![
            authors(&[(b"a", &[(b"x", 1)]), (b"b", &[])]),
            authors(&[(b"c", &[(b"y", 2)]), (b"d", &[(b"z", 3)])]),
            authors(&[(b"e", &[(b"v", 5)])]),
        ]
    );
    assert_eq!(table.chunks(5), vec![table.clone()]);
    assert_eq!(table.chunks(7), vec![table.clone()]);
    assert_eq!(table.chunks(1).len(), 5);
    assert_eq!(AuthorFrequencyTable::new().chunks(3), Vec::new());
    let mut whole = AuthorFrequencyTable::new();
    for part in parts.iter() {
        whole.merge(part);
    }
    assert_eq!(whole, table);
}
