use strings_to_and_fro::models::AndroidStringsEntry;
use strings_to_and_fro::strings_to_csv::{strings_to_csv, RunStatus, MAX_ITERATIONS};
use strings_to_and_fro::warnings::{Warning, Warnings};
use strings_to_and_fro::writer::RowBuffer;

fn entry(key: &str, value: &str) -> AndroidStringsEntry {
    AndroidStringsEntry { key: key.to_string(), value: value.to_string() }
}

fn names(list: &[&str]) -> Vec<String> {
    list.iter().map(|s| s.to_string()).collect()
}

#[test]
fn two_configurations_one_shared_key() {
    let configurations = names(&["values", "values-fr"]);
    let streams = vec![
        vec![entry("A", "Hello"), entry("B", "Hi")],
        vec![entry("A", "Bonjour")],
    ];
    let mut output = RowBuffer::new();
    let mut warnings = Warnings::new(2);
    let outcome = strings_to_csv(&configurations, streams, MAX_ITERATIONS, &mut output, &mut warnings);
    assert_eq!(outcome.status, RunStatus::Complete);
    assert_eq!(output.rows.len(), 2);
    assert_eq!(output.rows[0].key, "key");
    assert_eq!(output.rows[0].items, names(&["values", "values-fr"]));
    assert!(!output.rows[0].quotes);
    assert_eq!(output.rows[1].key, "A");
    assert_eq!(output.rows[1].items, names(&["Hello", "Bonjour"]));
    assert!(output.rows[1].quotes);
    assert_eq!(outcome.unresolved, names(&["B"]));
}

#[test]
fn fully_overlapping_keys_each_emitted_once() {
    let configurations = names(&["values", "values-de", "values-fr"]);
    let streams = vec![
        vec![entry("a", "1"), entry("b", "2"), entry("c", "3")],
        vec![entry("c", "30"), entry("a", "10"), entry("b", "20")],
        vec![entry("b", "200"), entry("c", "300"), entry("a", "100")],
    ];
    let mut output = RowBuffer::new();
    let mut warnings = Warnings::new(3);
    let outcome = strings_to_csv(&configurations, streams, MAX_ITERATIONS, &mut output, &mut warnings);
    assert_eq!(outcome.status, RunStatus::Complete);
    let mut keys: Vec<String> = output.rows[1..].iter().map(|r| r.key.clone()).collect();
    keys.sort();
    assert_eq!(keys, names(&["a", "b", "c"]));
    for row in &output.rows[1..] {
        match row.key.as_str() {
            "a" => assert_eq!(row.items, names(&["1", "10", "100"])),
            "b" => assert_eq!(row.items, names(&["2", "20", "200"])),
            "c" => assert_eq!(row.items, names(&["3", "30", "300"])),
            other => panic!("unexpected key {}", other),
        }
    }
    assert!(outcome.unresolved.is_empty());
}

#[test]
fn absent_key_never_emitted_and_surfaced() {
    let configurations = names(&["values", "values-fr"]);
    let streams = vec![
        vec![entry("A", "a"), entry("B", "b")],
        vec![entry("A", "aa")],
    ];
    let mut output = RowBuffer::new();
    let mut warnings = Warnings::new(2);
    let outcome = strings_to_csv(&configurations, streams, MAX_ITERATIONS, &mut output, &mut warnings);
    assert_eq!(outcome.status, RunStatus::Complete);
    assert!(output.rows[1..].iter().all(|r| r.key != "B"));
    assert_eq!(outcome.unresolved, names(&["B"]));
}

#[test]
fn arrival_order_independence() {
    let configurations = names(&["values", "values-fr"]);
    let streams1 = vec![
        vec![entry("A", "a"), entry("B", "b"), entry("C", "c")],
        vec![entry("C", "cc"), entry("A", "aa"), entry("B", "bb")],
    ];
    let streams2 = vec![
        vec![entry("C", "c"), entry("A", "a"), entry("B", "b")],
        vec![entry("B", "bb"), entry("C", "cc"), entry("A", "aa")],
    ];
    let mut out1 = RowBuffer::new();
    let mut w1 = Warnings::new(2);
    let o1 = strings_to_csv(&configurations, streams1, MAX_ITERATIONS, &mut out1, &mut w1);
    let mut out2 = RowBuffer::new();
    let mut w2 = Warnings::new(2);
    let o2 = strings_to_csv(&configurations, streams2, MAX_ITERATIONS, &mut out2, &mut w2);
    assert_eq!(o1.status, RunStatus::Complete);
    assert_eq!(o2.status, RunStatus::Complete);
    let collect = |b: &RowBuffer| {
        let mut rows: Vec<(String, Vec<String>)> =
            b.rows[1..].iter().map(|r| (r.key.clone(), r.items.clone())).collect();
        rows.sort();
        rows
    };
    assert_eq!(collect(&out1), collect(&out2));
}

#[test]
fn empty_value_is_defined_and_reported() {
    let configurations = names(&["values", "values-fr"]);
    let streams = vec![vec![entry("A", "Hello")], vec![entry("A", "")]];
    let mut output = RowBuffer::new();
    let mut warnings = Warnings::new(2);
    let outcome = strings_to_csv(&configurations, streams, MAX_ITERATIONS, &mut output, &mut warnings);
    assert_eq!(outcome.status, RunStatus::Complete);
    assert_eq!(output.rows.len(), 2);
    assert_eq!(output.rows[1].key, "A");
    assert_eq!(output.rows[1].items, names(&["Hello", ""]));
    let reports = warnings.report_list();
    assert_eq!(reports.len(), 1);
    match &reports[0] {
        Warning::EmptyValues { key, configurations, all_empty } => {
            assert_eq!(key, "A");
            assert_eq!(configurations, &names(&["values-fr"]));
            assert!(!all_empty);
        }
        other => panic!("unexpected warning {:?}", other),
    }
}

#[test]
fn all_values_empty_reported_as_all_empty() {
    let configurations = names(&["values", "values-fr"]);
    let streams = vec![vec![entry("A", "")], vec![entry("A", "")]];
    let mut output = RowBuffer::new();
    let mut warnings = Warnings::new(2);
    strings_to_csv(&configurations, streams, MAX_ITERATIONS, &mut output, &mut warnings);
    let reports = warnings.report_list();
    assert_eq!(reports.len(), 1);
    match &reports[0] {
        Warning::EmptyValues { key, configurations, all_empty } => {
            assert_eq!(key, "A");
            assert_eq!(configurations, &names(&["values", "values-fr"]));
            assert!(all_empty);
        }
        other => panic!("unexpected warning {:?}", other),
    }
}

#[test]
fn invalid_key_name_still_emitted() {
    let configurations = names(&["values", "values-fr"]);
    let streams = vec![vec![entry("my-key", "x")], vec![entry("my-key", "y")]];
    let mut output = RowBuffer::new();
    let mut warnings = Warnings::new(2);
    let outcome = strings_to_csv(&configurations, streams, MAX_ITERATIONS, &mut output, &mut warnings);
    assert_eq!(outcome.status, RunStatus::Complete);
    assert_eq!(output.rows.len(), 2);
    assert_eq!(output.rows[1].key, "my-key");
    let reports = warnings.report_list();
    assert_eq!(reports.len(), 1);
    match &reports[0] {
        Warning::InvalidKeyName { key, configurations } => {
            assert_eq!(key, "my-key");
            assert_eq!(configurations, &names(&["values", "values-fr"]));
        }
        other => panic!("unexpected warning {:?}", other),
    }
}

#[test]
fn duplicated_key_overwrites_and_reports() {
    let configurations = names(&["values", "values-fr"]);
    let streams = vec![
        vec![entry("A", "1"), entry("A", "2")],
        vec![entry("B", "b"), entry("A", "x")],
    ];
    let mut output = RowBuffer::new();
    let mut warnings = Warnings::new(2);
    let outcome = strings_to_csv(&configurations, streams, MAX_ITERATIONS, &mut output, &mut warnings);
    assert_eq!(outcome.status, RunStatus::Complete);
    assert_eq!(output.rows.len(), 2);
    assert_eq!(output.rows[1].key, "A");
    assert_eq!(output.rows[1].items, names(&["2", "x"]));
    let reports = warnings.report_list();
    assert!(reports.iter().any(|w| matches!(
        w,
        Warning::DuplicatedKey { key, configuration }
            if key == "A" && configuration == "values"
    )));
    assert_eq!(outcome.unresolved, names(&["B"]));
}

#[test]
fn zero_configurations_zero_rows() {
    let configurations: Vec<String> = Vec::new();
    let streams: Vec<Vec<AndroidStringsEntry>> = Vec::new();
    let mut output = RowBuffer::new();
    let mut warnings = Warnings::new(0);
    let outcome = strings_to_csv(&configurations, streams, MAX_ITERATIONS, &mut output, &mut warnings);
    assert_eq!(outcome.status, RunStatus::Complete);
    assert!(output.rows.is_empty());
    assert!(outcome.unresolved.is_empty());
    assert!(warnings.report_list().is_empty());
}

#[test]
fn duplicate_after_completion_leaves_key_pending_but_emitted() {
    let configurations = names(&["values", "values-fr"]);
    let streams = vec![
        vec![entry("A", "1"), entry("B", "x"), entry("A", "2")],
        vec![entry("A", "9"), entry("B", "y"), entry("C", "z")],
    ];
    let mut output = RowBuffer::new();
    let mut warnings = Warnings::new(2);
    let outcome = strings_to_csv(&configurations, streams, MAX_ITERATIONS, &mut output, &mut warnings);
    assert_eq!(outcome.status, RunStatus::Complete);
    let keys: Vec<String> = output.rows[1..].iter().map(|r| r.key.clone()).collect();
    assert_eq!(keys, names(&["A", "B"]));
    assert_eq!(output.rows[1].items, names(&["1", "9"]));
    let mut leftover = outcome.unresolved.clone();
    leftover.sort();
    assert_eq!(leftover, names(&["A", "C"]));
}

#[test]
fn iteration_cap_reports_bounded_stop() {
    let configurations = names(&["values"]);
    let streams = vec![vec![entry("k1", "a"), entry("k2", "b"), entry("k3", "c")]];
    let mut output = RowBuffer::new();
    let mut warnings = Warnings::new(1);
    let outcome = strings_to_csv(&configurations, streams, 1, &mut output, &mut warnings);
    assert_eq!(outcome.status, RunStatus::BoundedStop);
    assert_eq!(output.rows.len(), 2);
    assert_eq!(output.rows[1].key, "k1");
}

#[test]
fn complete_run_leaves_no_completable_key_pending() {
    let configurations = names(&["values", "values-fr"]);
    let streams = vec![
        vec![entry("A", "a"), entry("B", "b"), entry("C", "c")],
        vec![entry("B", "bb"), entry("D", "dd"), entry("A", "aa")],
    ];
    let mut output = RowBuffer::new();
    let mut warnings = Warnings::new(2);
    let outcome = strings_to_csv(&configurations, streams, MAX_ITERATIONS, &mut output, &mut warnings);
    assert_eq!(outcome.status, RunStatus::Complete);
    let mut emitted: Vec<String> = output.rows[1..].iter().map(|r| r.key.clone()).collect();
    emitted.sort();
    assert_eq!(emitted, names(&["A", "B"]));
    let mut leftover = outcome.unresolved.clone();
    leftover.sort();
    assert_eq!(leftover, names(&["C", "D"]));
}
