use memory_store::query::{
    fold_ascii, in_time_range, max_opt_i64, min_opt_i64, parse_query_time_expr,
    strip_prefix_case_insensitive,
};

fn chars(s: &str) -> Vec<char> {
    s.chars().collect()
}

fn stripped(text: &str, prefix: &str) -> Option<String> {
    strip_prefix_case_insensitive(&chars(text), &chars(prefix)).map(|v| v.into_iter().collect())
}

const MAY_1: i64 = 1746057600;
const MAY_1_END: i64 = 1746143999;

#[test]
fn a_missing_or_blank_query_asks_for_nothing() {
    assert_eq!(parse_query_time_expr(None), (None, None, None));
    assert_eq!(parse_query_time_expr(Some("")), (None, None, None));
    assert_eq!(parse_query_time_expr(Some("  \t ")), (None, None, None));
}

#[test]
fn time_expressions_are_taken_out_of_the_text() {
    assert_eq!(
        parse_query_time_expr(Some("time>=2025-05-01")),
        (None, Some(MAY_1), None)
    );
    assert_eq!(
        parse_query_time_expr(Some("time<=2025-05-01")),
        (None, None, Some(MAY_1_END))
    );
    assert_eq!(
        parse_query_time_expr(Some("time=2025-05-01")),
        (None, Some(MAY_1), Some(MAY_1_END))
    );
    assert_eq!(
        parse_query_time_expr(Some("time=2025-02-01..2025-02-28")),
        (None, Some(1738368000), Some(1740787199))
    );
    assert_eq!(
        parse_query_time_expr(Some("time=2025-05-01T00:00:00Z")),
        (None, Some(MAY_1), Some(MAY_1))
    );
    assert_eq!(
        parse_query_time_expr(Some("  Release  TIME>=2025-05-01 Notes\tTime<=2025-05-01 ")),
        (Some("release notes".to_string()), Some(MAY_1), Some(MAY_1_END))
    );
}

#[test]
fn several_time_expressions_leave_the_tightest_range() {
    assert_eq!(
        parse_query_time_expr(Some(
            "time>=2025-04-01 time>=2025-05-01 time>=2025-01-01 time<=2025-12-31 time<=2025-05-01"
        )),
        (None, Some(MAY_1), Some(MAY_1_END))
    );
    assert_eq!(
        parse_query_time_expr(Some("time=2025-01-01..2025-12-31 time=2025-05-01")),
        (None, Some(MAY_1), Some(MAY_1_END))
    );
}

#[test]
fn a_time_expression_that_does_not_read_is_text() {
    assert_eq!(
        parse_query_time_expr(Some("time>=Tomorrow")),
        (Some("time>=tomorrow".to_string()), None, None)
    );
    assert_eq!(
        parse_query_time_expr(Some("time=2025-05-01..soon x")),
        (Some("time=2025-05-01..soon x".to_string()), None, None)
    );
    assert_eq!(
        parse_query_time_expr(Some("time=soon..2025-05-01")),
        (Some("time=soon..2025-05-01".to_string()), None, None)
    );
    assert_eq!(
        parse_query_time_expr(Some("time>2025-05-01 time 2025-05-01 timé>=2025-05-01")),
        (Some("time>2025-05-01 time 2025-05-01 timé>=2025-05-01".to_string()), None, None)
    );
    assert_eq!(parse_query_time_expr(Some("time>=")), (Some("time>=".to_string()), None, None));
    assert_eq!(parse_query_time_expr(Some("ERP 项目")), (Some("erp 项目".to_string()), None, None));
}

#[test]
fn a_time_lies_in_a_closed_range() {
    assert!(in_time_range(5, None, None));
    assert!(in_time_range(5, Some(5), Some(5)));
    assert!(in_time_range(5, Some(4), None));
    assert!(in_time_range(5, None, Some(6)));
    assert!(!in_time_range(5, Some(6), None));
    assert!(!in_time_range(5, None, Some(4)));
    assert!(!in_time_range(5, Some(6), Some(4)));
    assert!(in_time_range(i64::MIN, Some(i64::MIN), Some(i64::MAX)));
}

#[test]
fn bounds_combine_to_the_tighter_one() {
    assert_eq!(max_opt_i64(Some(1), Some(2)), Some(2));
    assert_eq!(max_opt_i64(Some(2), Some(1)), Some(2));
    assert_eq!(max_opt_i64(Some(-1), None), Some(-1));
    assert_eq!(max_opt_i64(None, Some(7)), Some(7));
    assert_eq!(max_opt_i64(None, None), None);
    assert_eq!(min_opt_i64(Some(1), Some(2)), Some(1));
    assert_eq!(min_opt_i64(Some(2), Some(1)), Some(1));
    assert_eq!(min_opt_i64(Some(-1), None), Some(-1));
    assert_eq!(min_opt_i64(None, Some(7)), Some(7));
    assert_eq!(min_opt_i64(None, None), None);
}

#[test]
fn a_prefix_is_matched_without_regard_to_ascii_case() {
    assert_eq!(stripped("time>=2025", "time>=").as_deref(), Some("2025"));
    assert_eq!(stripped("TiMe>=2025", "time>=").as_deref(), Some("2025"));
    assert_eq!(stripped("time>=", "time>=").as_deref(), Some(""));
    assert_eq!(stripped("time>", "time>="), None);
    assert_eq!(stripped("time<=2025", "time>="), None);
    assert_eq!(stripped("timé>=2025", "time>="), None);
    assert_eq!(stripped("anything", "").as_deref(), Some("anything"));
    assert_eq!(stripped("ÄB", "äb"), None);
    assert_eq!(fold_ascii('A'), 'a' as u32);
    assert_eq!(fold_ascii('Z'), 'z' as u32);
    assert_eq!(fold_ascii('a'), 'a' as u32);
    assert_eq!(fold_ascii('['), '[' as u32);
    assert_eq!(fold_ascii('@'), '@' as u32);
    assert_eq!(fold_ascii('Ä'), 'Ä' as u32);
}
