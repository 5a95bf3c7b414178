use clonehunter::delete_plan::{GroupPlan, delete_plan, delete_totals};
use clonehunter::json::{parse_report, render_report};
use clonehunter::report::PrinterJSONObject;

fn record(no: u64, bytes_each: u64, list: Vec<&str>) -> PrinterJSONObject {
    PrinterJSONObject {
        duplicate_group_no: no,
        duplicate_group_count: list.len() as u64,
        duplicate_group_bytes_each: bytes_each,
        duplicate_list: list.into_iter().map(String::from).collect(),
    }
}

#[test]
fn one_record_renders_to_the_exact_text() {
    let records = vec![record(1, 100, vec!["a", "b"])];
    let text = render_report(&records);
    assert_eq!(
        text,
        "[{\"duplicate_group_no\":1,\"duplicate_group_count\":2,\
         \"duplicate_group_bytes_each\":100,\"duplicate_list\":[\"a\",\"b\"]}]"
    );
}

#[test]
fn an_empty_report_renders_to_an_empty_array() {
    let records: Vec<PrinterJSONObject> = Vec::new();
    assert_eq!(render_report(&records), "[]");
    assert_eq!(parse_report("[]"), Some(Vec::new()));
}

#[test]
fn a_report_survives_the_round_trip() {
    let records = vec![
        record(1, 100, vec!["/t/a.bin", "/t/b.bin"]),
        record(2, 0, vec!["/t/c.bin", "/t/d.bin", "/t/e.bin"]),
        record(3, 18446744073709551615, vec!["/t/huge.bin", "/t/huge2.bin"]),
    ];
    let text = render_report(&records);
    let back = parse_report(text.as_str()).expect("the rendered report must parse");
    assert_eq!(back, records);
}

#[test]
fn escaped_paths_survive_the_round_trip() {
    let records = vec![record(1, 10, vec!["/odd/a\"quote", "/odd/back\\slash", "/odd/tab\there"])];
    let text = render_report(&records);
    let back = parse_report(text.as_str()).expect("the rendered report must parse");
    assert_eq!(back, records);
}

#[test]
fn a_record_with_an_empty_list_round_trips() {
    let records = vec![record(1, 5, Vec::new())];
    let text = render_report(&records);
    assert_eq!(parse_report(text.as_str()), Some(records));
}

#[test]
fn malformed_reports_are_rejected() {
    assert_eq!(parse_report(""), None);
    assert_eq!(parse_report("{"), None);
    assert_eq!(parse_report("[{]"), None);
    assert_eq!(parse_report("[]trailing"), None);
    assert_eq!(parse_report("[{\"duplicate_group_no\":1}]"), None);
    assert_eq!(parse_report("[{\"duplicate_group_no\":x,\"duplicate_group_count\":2,\"duplicate_group_bytes_each\":100,\"duplicate_list\":[\"a\"]}]"), None);
}

#[test]
fn numbers_too_large_for_u64_are_rejected() {
    let text = "[{\"duplicate_group_no\":18446744073709551616,\"duplicate_group_count\":2,\"duplicate_group_bytes_each\":100,\"duplicate_list\":[\"a\",\"b\"]}]";
    assert_eq!(parse_report(text), None);
}

#[test]
fn deletion_retains_the_last_member() {
    let records = vec![record(1, 100, vec!["/t/a", "/t/b", "/t/c"])];
    let plans = delete_plan(records);
    assert_eq!(plans.len(), 1);
    let plan: &GroupPlan = &plans[0];
    assert_eq!(plan.group_no, 1);
    assert_eq!(plan.bytes_each, 100);
    assert_eq!(plan.delete, vec![String::from("/t/a"), String::from("/t/b")]);
    assert_eq!(plan.retain, Some(String::from("/t/c")));
}

#[test]
fn zero_size_groups_are_removed_whole() {
    let records = vec![record(1, 0, vec!["/t/a", "/t/b", "/t/c"])];
    let plans = delete_plan(records);
    assert_eq!(plans.len(), 1);
    assert_eq!(
        plans[0].delete,
        vec![String::from("/t/a"), String::from("/t/b"), String::from("/t/c")]
    );
    assert_eq!(plans[0].retain, None);
}

#[test]
fn an_empty_record_plans_nothing() {
    let records = vec![record(1, 10, Vec::new())];
    let plans = delete_plan(records);
    assert_eq!(plans.len(), 1);
    assert!(plans[0].delete.is_empty());
    assert_eq!(plans[0].retain, None);
}

#[test]
fn delete_totals_sum_each_group_once() {
    let records = vec![
        record(1, 100, vec!["/t/a", "/t/b"]),
        record(2, 50, vec!["/t/c", "/t/d", "/t/e"]),
    ];
    let (groups, bytes) = delete_totals(&records);
    assert_eq!(groups, 2);
    assert_eq!(bytes, 150);
}

#[test]
fn a_hunt_report_feeds_the_delete_plan() {
    let records = vec![record(7, 100, vec!["/t/a.bin", "/t/b.bin"])];
    let text = render_report(&records);
    let back = parse_report(text.as_str()).unwrap();
    let plans = delete_plan(back);
    assert_eq!(plans.len(), 1);
    assert_eq!(plans[0].group_no, 7);
    assert_eq!(plans[0].delete, vec![String::from("/t/a.bin")]);
    assert_eq!(plans[0].retain, Some(String::from("/t/b.bin")));
}
