use explorer_core::aggregate::{aggregate, AggregateEntry};
use explorer_core::CoreError;

fn entry(key: &str, value: i64) -> AggregateEntry {
    AggregateEntry { key: key.to_string(), value }
}

fn pairs(out: &[AggregateEntry]) -> Vec<(&str, i64)> {
    out.iter().map(|e| (e.key.as_str(), e.value)).collect()
}

#[test]
fn aggregate_top_five_plus_other() {
    let records = vec![
        entry("a", 10),
        entry("b", 8),
        entry("c", 6),
        entry("d", 4),
        entry("e", 2),
        entry("f", 1),
    ];
    let out = aggregate(&records, 5, "Other".to_string()).unwrap();
    assert_eq!(
        pairs(&out),
        vec![("a", 10), ("b", 8), ("c", 6), ("d", 4), ("e", 2), ("Other", 1)]
    );
}

#[test]
fn aggregate_sums_repeated_keys() {
    let records = vec![entry("a", 1), entry("b", 2), entry("a", 3), entry("b", 5)];
    let out = aggregate(&records, 5, "Other".to_string()).unwrap();
    assert_eq!(pairs(&out), vec![("b", 7), ("a", 4)]);
}

#[test]
fn aggregate_no_other_when_groups_fit() {
    let records = vec![entry("a", 1), entry("b", 9)];
    let out = aggregate(&records, 2, "Other".to_string()).unwrap();
    assert_eq!(pairs(&out), vec![("b", 9), ("a", 1)]);
}

#[test]
fn aggregate_folds_everything_past_the_cap() {
    let records = vec![entry("a", 5), entry("b", 4), entry("c", 3), entry("d", 2)];
    let out = aggregate(&records, 1, "rest".to_string()).unwrap();
    assert_eq!(pairs(&out), vec![("a", 5), ("rest", 9)]);
}

#[test]
fn aggregate_empty_input_yields_empty_output() {
    let records: Vec<AggregateEntry> = Vec::new();
    let out = aggregate(&records, 5, "Other".to_string()).unwrap();
    assert!(out.is_empty());
}

#[test]
fn aggregate_zero_top_k_rejected() {
    let records = vec![entry("a", 1)];
    assert_eq!(
        aggregate(&records, 0, "Other".to_string()),
        Err(CoreError::InvalidArgument)
    );
}

#[test]
fn aggregate_conserves_the_total() {
    let records = vec![
        entry("a", 12),
        entry("b", 7),
        entry("a", -3),
        entry("c", 4),
        entry("d", 9),
        entry("e", 1),
        entry("f", 2),
        entry("b", 6),
    ];
    let input_total: i64 = records.iter().map(|e| e.value).sum();
    for k in 1..8usize {
        let out = aggregate(&records, k, "Other".to_string()).unwrap();
        let output_total: i64 = out.iter().map(|e| e.value).sum();
        assert_eq!(output_total, input_total);
    }
}

#[test]
fn aggregate_holds_at_most_top_k_plus_one_entries() {
    let records = vec![
        entry("a", 6),
        entry("b", 5),
        entry("c", 4),
        entry("d", 3),
        entry("e", 2),
        entry("f", 1),
    ];
    for k in 1..9usize {
        let out = aggregate(&records, k, "Other".to_string()).unwrap();
        assert!(out.len() <= k + 1);
    }
}

#[test]
fn aggregate_ties_keep_first_seen_order() {
    let records = vec![entry("x", 5), entry("y", 5), entry("z", 5)];
    let out = aggregate(&records, 3, "Other".to_string()).unwrap();
    assert_eq!(pairs(&out), vec![("x", 5), ("y", 5), ("z", 5)]);
}

#[test]
fn aggregate_passes_negative_values_through() {
    let records = vec![entry("loss", -4), entry("gain", 3)];
    let out = aggregate(&records, 1, "Other".to_string()).unwrap();
    assert_eq!(pairs(&out), vec![("gain", 3), ("Other", -4)]);
}

#[test]
fn aggregate_other_label_is_callers_choice() {
    let records = vec![entry("a", 2), entry("b", 1)];
    let out = aggregate(&records, 1, "everything else".to_string()).unwrap();
    assert_eq!(pairs(&out), vec![("a", 2), ("everything else", 1)]);
}
