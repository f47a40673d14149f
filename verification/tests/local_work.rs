use yinyang::error::ErrorKind;
use yinyang::model::ChangeCursor;
use yinyang::order::{has_repeated_key, lower_bound, sort, upper_bound};
use yinyang::ordered::{merge_runs, ordered_join, unique, JoinItem, OrderedMerge};
use yinyang::path::{validate_portable_component, validate_portable_path};
use yinyang::paths::{PathKey, PathSet};
use yinyang::spool::{frame, frame_bytes, record_length, take_record};
use yinyang::text::{composed, decode_text, folded, text_precedes, to_hex};
use yinyang::views::{NewestRecords, VersionedRecord};
use yinyang::work::{cut_run, merge_sorted, sort_within, RunCompactor, WorkBudget};

fn keys(texts: &[&str]) -> Vec<PathKey> {
    texts
        .iter()
        .map(|text| PathKey {
            text: (*text).to_owned(),
        })
        .collect()
}

fn texts(keys: &[PathKey]) -> Vec<&str> {
    keys.iter().map(|key| key.text.as_str()).collect()
}

#[test]
fn sorting_within_a_budget_sorts() {
    let items = keys(&["d", "a", "c", "b", "a"]);
    let sizes = vec![40, 40, 40, 40, 40];
    let budget = WorkBudget::new(90, 1).unwrap();
    assert_eq!(
        texts(&sort_within(items, &sizes, budget)),
        vec!["a", "a", "b", "c", "d"]
    );
    assert_eq!(cut_run(&sizes, 0, 90), 2);
    assert_eq!(cut_run(&sizes, 4, 90), 5);
    assert_eq!(cut_run(&vec![500], 0, 90), 1);
    let merged = merge_sorted(
        vec![keys(&["a", "c"]), keys(&["b"]), keys(&["a", "d"])],
        budget,
    );
    assert_eq!(texts(&merged), vec!["a", "a", "b", "c", "d"]);
}

#[test]
fn budgets_do_not_change_what_a_sort_gives() {
    let names: Vec<String> = (0_u32..50).map(|i| format!("{:02}", i * 37 % 50)).collect();
    let borrowed: Vec<&str> = names.iter().map(String::as_str).collect();
    let mut expected = borrowed.clone();
    expected.sort();
    for (memory, streams) in [(1, 1), (60, 1), (200, 3), (100_000, 8)] {
        let budget = WorkBudget::new(memory, streams).unwrap();
        let sorted = sort_within(keys(&borrowed), &vec![30; 50], budget);
        assert_eq!(texts(&sorted), expected);
    }
}

#[test]
fn budgets_come_from_memory_and_streams() {
    let budget = WorkBudget::from_mib(2, 4).unwrap();
    assert_eq!(budget.memory_target_bytes(), 2 * 1024 * 1024);
    assert_eq!(budget.fan_in(), 5);
    assert_eq!(
        WorkBudget::from_mib(usize::MAX, 1).unwrap_err().message(),
        "work memory overflows"
    );
    assert_eq!(
        WorkBudget::new(1, usize::MAX).unwrap_err().message(),
        "stream concurrency overflows"
    );
}

#[test]
fn merges_keep_the_order_of_their_sources() {
    assert_eq!(
        texts(&merge_runs(vec![keys(&["a", "c"]), keys(&["b", "c"])])),
        vec!["a", "b", "c", "c"]
    );
    let mut merge = OrderedMerge::from_readers(vec![keys(&["a", "c"]), keys(&["a", "b"])]);
    let group = merge.next_group().unwrap();
    let sources: Vec<usize> = group.iter().map(|(source, _)| *source).collect();
    assert_eq!(sources, vec![0, 1]);
    let (source, key) = merge.next_with_source().unwrap();
    assert_eq!((source, key.text.as_str()), (1, "b"));
    assert_eq!(merge.next_group().unwrap().len(), 1);
    assert!(merge.next_group().is_none());
}

fn tagged(items: &[(&str, u64)]) -> Vec<VersionedRecord> {
    items
        .iter()
        .map(|&(path, sequence)| VersionedRecord {
            path: path.to_owned(),
            change_cursor: ChangeCursor { sequence },
            value: None,
        })
        .collect()
}

fn pairs(items: &[VersionedRecord]) -> Vec<(&str, u64)> {
    items
        .iter()
        .map(|item| (item.path.as_str(), item.change_cursor.sequence()))
        .collect()
}

#[test]
fn merges_take_equal_keys_from_the_earlier_run_first() {
    let merged = merge_runs(vec![
        tagged(&[("a", 0), ("b", 1), ("b", 2)]),
        tagged(&[("b", 3), ("c", 4)]),
        tagged(&[("a", 5), ("b", 6)]),
    ]);
    assert_eq!(
        pairs(&merged),
        vec![("a", 0), ("a", 5), ("b", 1), ("b", 2), ("b", 3), ("b", 6), ("c", 4)]
    );
}

#[test]
fn sorts_merge_equal_keys_level_by_level() {
    let pairwise = WorkBudget::new(100, 1).unwrap();
    let single = |sequence: u64| tagged(&[("a", sequence)]);
    let merged = merge_sorted(vec![single(0), single(1), single(2)], pairwise);
    assert_eq!(pairs(&merged), vec![("a", 2), ("a", 0), ("a", 1)]);
    let wide = WorkBudget::new(100, 4).unwrap();
    let merged = merge_sorted(vec![single(0), single(1), single(2)], wide);
    assert_eq!(pairs(&merged), vec![("a", 0), ("a", 1), ("a", 2)]);

    // Two records fit one run.
    let items = tagged(&[("b", 0), ("a", 1), ("a", 2), ("a", 3), ("a", 4), ("b", 5)]);
    let sorted = sort_within(items, &vec![50; 6], pairwise);
    assert_eq!(
        pairs(&sorted),
        vec![("a", 4), ("a", 1), ("a", 2), ("a", 3), ("b", 5), ("b", 0)]
    );
}

#[test]
fn runs_are_merged_a_number_at_a_time() {
    let merger = NewestRecords {
        view_cursor: ChangeCursor { sequence: 100 },
        fan_in: 3,
    };
    let mut compactor = RunCompactor::new(3);
    for sequence in 0..11 {
        let path = if sequence % 2 == 0 { "even" } else { "odd" };
        compactor = compactor.push(tagged(&[(path, sequence)]), &merger).unwrap();
    }
    let merged = compactor.finish(&merger).unwrap().unwrap();
    assert_eq!(pairs(&merged), vec![("even", 10), ("odd", 9)]);
    let empty: RunCompactor<Vec<VersionedRecord>> = RunCompactor::new(2);
    assert!(empty.finish(&merger).unwrap().is_none());
}

#[test]
fn groups_hold_every_item_of_their_key() {
    let mut merge = OrderedMerge::from_readers(vec![
        keys(&["a", "a", "c"]),
        keys(&["a", "b", "b"]),
    ]);
    let sources = |group: Vec<(usize, PathKey)>| -> Vec<usize> {
        group.into_iter().map(|(source, _)| source).collect()
    };
    assert_eq!(sources(merge.next_group().unwrap()), vec![0, 0, 1]);
    assert_eq!(sources(merge.next_group().unwrap()), vec![1, 1]);
    assert_eq!(sources(merge.next_group().unwrap()), vec![0]);
    assert!(merge.next_group().is_none());
}

#[test]
fn joins_pair_equal_keys() {
    let left = keys(&["a", "b", "d"]);
    let right = keys(&["b", "b", "c", "d"]);
    assert_eq!(
        ordered_join(&left, &right),
        vec![
            JoinItem::Left(0),
            JoinItem::Match(1, 0),
            JoinItem::Match(1, 1),
            JoinItem::Right(2),
            JoinItem::Match(2, 3),
        ]
    );
    assert_eq!(texts(&unique(keys(&["a", "a", "b"]))), vec!["a", "b"]);
}

#[test]
fn keys_are_found_by_halving() {
    let ordered = sort(keys(&["b", "c", "b", "a"]));
    let probe = PathKey {
        text: "b".to_owned(),
    };
    assert_eq!(lower_bound(&ordered, &probe), 1);
    assert_eq!(upper_bound(&ordered, &probe), 3);
    assert!(has_repeated_key(ordered));
    assert!(!has_repeated_key(keys(&["x", "y"])));
}

#[test]
fn spooled_records_are_read_back() {
    let mut stream = frame(b"one").unwrap();
    assert_eq!(stream, b"\x03\x00\x00\x00one");
    stream.extend(frame(b"").unwrap());
    stream.extend(frame(b"three").unwrap());
    assert_eq!(record_length(&stream[..4]), 3);
    assert_eq!(frame_bytes(3).unwrap(), 7);
    let (first, rest) = take_record(stream).unwrap();
    assert_eq!(first, b"one");
    let (second, rest) = take_record(rest).unwrap();
    assert!(second.is_empty());
    let (third, rest) = take_record(rest).unwrap();
    assert_eq!(third, b"three");
    assert!(rest.is_empty());
}

#[test]
fn sets_of_paths_are_ordered_and_have_no_repeats() {
    let set = PathSet::from_paths(vec!["b".to_owned(), "a".to_owned(), "b".to_owned()]);
    assert_eq!(set.len(), 2);
    assert_eq!((set.path(0), set.path(1)), ("a", "b"));
    assert!(set.contains("a") && !set.contains("c"));
    assert!(set.same(&PathSet::from_paths(vec!["a".to_owned(), "b".to_owned()])));
    assert!(!set.same(&PathSet::from_paths(Vec::new())));
    assert!(PathSet::from_paths(Vec::new()).is_empty());
}

#[test]
fn names_are_folded_and_composed() {
    assert_eq!(folded("README"), "readme");
    assert_eq!(folded("Stra\u{df}e"), "strasse");
    assert_eq!(composed("e\u{301}"), "\u{e9}");
    assert_eq!(decode_text(b"plain"), Some("plain".to_owned()));
    assert_eq!(decode_text(&[0xff]), None);
    assert_eq!(to_hex(&[0, 255, 16]), "00ff10");
    assert!(text_precedes("a", "b") && !text_precedes("b", "a"));
}

#[test]
fn portable_components_exclude_what_platforms_refuse() {
    for good in ["file", "a.b", "\u{e9}", "con2"] {
        assert!(validate_portable_component(good).is_ok());
    }
    let bad = [
        ".", "..", "a:b", "nul", "COM1.txt", "end.", "end ", "e\u{301}", "tab\t", "com\u{b9}",
    ];
    for name in bad {
        assert_eq!(
            validate_portable_component(name).unwrap_err().kind(),
            ErrorKind::Invalid
        );
    }
    assert!(validate_portable_component(&"x".repeat(255)).is_ok());
    assert!(validate_portable_component(&"x".repeat(256)).is_err());
    let deep = vec!["d".repeat(200); 20].join("/");
    assert_eq!(deep.len(), 4019);
    assert!(validate_portable_path(&deep).is_ok());
    assert!(validate_portable_path(&format!("{deep}/{}", "d".repeat(100))).is_err());
}
