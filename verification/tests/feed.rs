use explorer_core::merge::{merge, Timestamped};

fn slot(ts: Option<u64>, name: &str) -> Option<Timestamped<String>> {
    Some(Timestamped { time: ts, record: name.to_string() })
}

fn names(feed: &[Timestamped<String>]) -> Vec<&str> {
    feed.iter().map(|e| e.record.as_str()).collect()
}

fn times(feed: &[Timestamped<String>]) -> Vec<Option<u64>> {
    feed.iter().map(|e| e.time).collect()
}

#[test]
fn merge_orders_newest_first_across_sources() {
    let a = vec![slot(Some(5), "a5"), None, slot(Some(9), "a9")];
    let b = vec![slot(Some(7), "b7")];
    let feed = merge(a, b);
    assert_eq!(times(&feed), vec![Some(9), Some(7), Some(5)]);
    assert_eq!(names(&feed), vec!["a9", "b7", "a5"]);
}

#[test]
fn merge_length_counts_present_slots_of_both_sources() {
    let a = vec![slot(Some(3), "x"), None, None, slot(Some(1), "y")];
    let b = vec![None, slot(Some(2), "z")];
    let feed = merge(a, b);
    assert_eq!(feed.len(), 2 + 1);
}

#[test]
fn merge_keeps_duplicates() {
    // a self-transfer shows up in both the "from" and the "to" source;
    // both occurrences stay
    let a = vec![slot(Some(4), "self")];
    let b = vec![slot(Some(4), "self")];
    let feed = merge(a, b);
    assert_eq!(names(&feed), vec!["self", "self"]);
}

#[test]
fn merge_of_empty_sources_is_empty() {
    let feed = merge(Vec::<Option<Timestamped<String>>>::new(), Vec::new());
    assert!(feed.is_empty());
}

#[test]
fn merge_with_one_empty_source_is_the_other_sorted() {
    let a = vec![slot(Some(1), "old"), slot(Some(8), "new"), slot(Some(5), "mid")];
    let feed = merge(a, Vec::new());
    assert_eq!(names(&feed), vec!["new", "mid", "old"]);
}

#[test]
fn merge_drops_only_absent_slots() {
    let a = vec![None, None, slot(Some(2), "kept")];
    let b = vec![None];
    let feed = merge(a, b);
    assert_eq!(names(&feed), vec!["kept"]);
}

#[test]
fn merge_sorts_missing_timestamps_last() {
    let a = vec![slot(None, "undated"), slot(Some(1), "dated")];
    let b = vec![slot(Some(3), "later")];
    let feed = merge(a, b);
    assert_eq!(names(&feed), vec!["later", "dated", "undated"]);
}

#[test]
fn merge_missing_timestamp_sorts_after_any_present_value() {
    // even a zero timestamp outranks an absent one
    let a = vec![slot(None, "undated")];
    let b = vec![slot(Some(0), "epoch")];
    let feed = merge(a, b);
    assert_eq!(names(&feed), vec!["epoch", "undated"]);
}

#[test]
fn merge_is_stable_on_equal_timestamps() {
    let a = vec![slot(Some(7), "a-first"), slot(Some(7), "a-second")];
    let b = vec![slot(Some(7), "b-first")];
    let feed = merge(a, b);
    assert_eq!(names(&feed), vec!["a-first", "a-second", "b-first"]);
}

#[test]
fn merge_is_stable_on_missing_timestamps() {
    let a = vec![slot(None, "a-undated")];
    let b = vec![slot(None, "b-undated"), slot(Some(2), "b-dated")];
    let feed = merge(a, b);
    assert_eq!(names(&feed), vec!["b-dated", "a-undated", "b-undated"]);
}

#[test]
fn merge_pairwise_order_holds_throughout() {
    let a = vec![
        slot(Some(10), "p"),
        None,
        slot(None, "q"),
        slot(Some(3), "r"),
        slot(Some(10), "s"),
    ];
    let b = vec![slot(Some(7), "t"), slot(None, "u"), None, slot(Some(12), "v")];
    let feed = merge(a, b);
    assert_eq!(feed.len(), 7);
    for w in feed.windows(2) {
        match (w[0].time, w[1].time) {
            (Some(x), Some(y)) => assert!(x >= y),
            (None, Some(_)) => panic!("undated record before a dated one"),
            _ => {}
        }
    }
}
