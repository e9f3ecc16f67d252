use memory_store::keywords::{
    has_keyword, is_day_token_zh, is_month_token_zh, is_time_like_keyword, is_year_token_zh,
    lex_no_later, normalize_keyword, normalize_keywords, parse_ymd_zh, sort_keywords,
};

fn chars(s: &str) -> Vec<char> {
    s.chars().collect()
}

fn list(items: &[&str]) -> Vec<String> {
    items.iter().map(|s| s.to_string()).collect()
}

#[test]
fn keywords_are_trimmed_lowercased_and_kept_once() {
    assert_eq!(
        normalize_keywords(list(&["  ERP ", "erp", "项目", "", "   ", "Erp", "Project X", "项目"])),
        list(&["erp", "项目", "project x"])
    );
    assert_eq!(normalize_keywords(Vec::new()), Vec::<String>::new());
    assert_eq!(normalize_keyword(" Straße "), Some("straße".to_string()));
    assert_eq!(normalize_keyword(" \u{3000} "), None);
}

#[test]
fn time_like_keywords_are_dropped() {
    for x in [
        "2025-08-20",
        "2025-08-20T10:00:00Z",
        "2025-08-20t10:00:00z",
        "2025年8月20日",
        "2025年",
        "8月",
        "20日",
        "2025-01-01..2025-12-31",
    ] {
        assert_eq!(normalize_keywords(list(&[x, "项目"])), list(&["项目"]), "{x}");
        assert!(is_time_like_keyword(x), "{x}");
    }
}

#[test]
fn normalizing_twice_changes_nothing() {
    for input in [
        list(&["  ERP ", "erp", "项目", "2025-08-20", "Project X"]),
        list(&["ΑΣ", "İstanbul", " Ǆ ", "a", "A"]),
        list(&[]),
        list(&["2025年", "13月", "0日"]),
    ] {
        let once = normalize_keywords(input);
        assert_eq!(normalize_keywords(once.clone()), once);
    }
}

#[test]
fn the_time_like_detector_ignores_white_space() {
    assert!(is_time_like_keyword("2025 年 8 月 20 日"));
    assert!(is_time_like_keyword(" 2025 - 08 - 20 "));
    assert!(is_time_like_keyword("2025-01-01 .. 2025-12-31"));
    assert!(is_time_like_keyword("2025-01-01..2025-12-31T00:00:00Z"));
    assert!(!is_time_like_keyword(""));
    assert!(!is_time_like_keyword("   "));
}

#[test]
fn the_time_like_detector_keeps_what_only_looks_like_a_date() {
    for x in [
        "项目",
        "erp",
        "2025",
        "v2025-08",
        "13月",
        "0月",
        "32日",
        "0日",
        "0000年",
        "25年",
        "20250年",
        "月",
        "2025年8月",
        "2025年13月1日",
        "2025年8月32日",
        "2025年8月20日晚",
        "0年8月20日",
        "2025-01-01..later",
        "soon..2025-12-31",
        "..",
        "a..b",
    ] {
        assert!(!is_time_like_keyword(x), "{x}");
    }
}

#[test]
fn calendar_tokens_are_read_by_their_numbers() {
    assert!(is_year_token_zh(&chars("2025年")));
    assert!(is_year_token_zh(&chars("0001年")));
    assert!(!is_year_token_zh(&chars("0000年")));
    assert!(!is_year_token_zh(&chars("202年")));
    assert!(!is_year_token_zh(&chars("20255年")));
    assert!(!is_year_token_zh(&chars("２０２５年")));
    assert!(is_month_token_zh(&chars("1月")));
    assert!(is_month_token_zh(&chars("12月")));
    assert!(is_month_token_zh(&chars("0000000000000000000012月")));
    assert!(!is_month_token_zh(&chars("13月")));
    assert!(!is_month_token_zh(&chars("99999999999999999999月")));
    assert!(!is_month_token_zh(&chars("月")));
    assert!(!is_month_token_zh(&chars("1 月")));
    assert!(is_day_token_zh(&chars("31日")));
    assert!(!is_day_token_zh(&chars("32日")));
    assert!(!is_day_token_zh(&chars("3a日")));
    assert!(!is_day_token_zh(&chars("")));
}

#[test]
fn dates_with_calendar_marks_are_read() {
    assert_eq!(parse_ymd_zh(&chars("2025年8月20日")), Some((2025, 8, 20)));
    assert_eq!(parse_ymd_zh(&chars("1年01月031日")), Some((1, 1, 31)));
    assert_eq!(parse_ymd_zh(&chars("9999年12月31日")), Some((9999, 12, 31)));
    for wrong in [
        "",
        "2025年8月20",
        "2025年8月20日 ",
        "年8月20日",
        "2025年月20日",
        "2025年8月日",
        "10000年1月1日",
        "2025年0月1日",
        "2025年1月0日",
        "2025月8年20日",
        "2025年8月20日日",
        "2025年年8月20日",
        "x2025年8月20日",
    ] {
        assert_eq!(parse_ymd_zh(&chars(wrong)), None, "{wrong}");
    }
}

#[test]
fn keywords_are_listed_shorter_first_then_by_the_dictionary() {
    assert_eq!(
        sort_keywords(&list(&["erp", "项目", "b", "ab", "a", "aa", "项", "B"])),
        list(&["B", "a", "b", "项", "aa", "ab", "项目", "erp"])
    );
    assert_eq!(sort_keywords(&list(&[])), list(&[]));
    assert_eq!(sort_keywords(&list(&["b", "a", "b"])), list(&["a", "b", "b"]));
}

#[test]
fn the_order_of_the_dictionary_goes_by_the_first_difference() {
    assert!(lex_no_later(&chars(""), &chars("")));
    assert!(lex_no_later(&chars(""), &chars("a")));
    assert!(!lex_no_later(&chars("a"), &chars("")));
    assert!(lex_no_later(&chars("abc"), &chars("abd")));
    assert!(!lex_no_later(&chars("abd"), &chars("abc")));
    assert!(lex_no_later(&chars("ab"), &chars("abc")));
    assert!(!lex_no_later(&chars("abc"), &chars("ab")));
    assert!(lex_no_later(&chars("Z"), &chars("a")));
    assert!(lex_no_later(&chars("z"), &chars("项")));
    assert!(lex_no_later(&chars("same"), &chars("same")));
}

#[test]
fn membership_goes_by_the_text() {
    let all = list(&["a", "项目"]);
    assert!(has_keyword(&all, &"项目".to_string()));
    assert!(!has_keyword(&all, &"项".to_string()));
    assert!(!has_keyword(&Vec::new(), &"a".to_string()));
}

#[test]
fn numbers_with_hyphens_that_are_no_dates_are_kept() {
    for x in ["1-2-3", "2025-8-2", "2025-8-20", "25-08-20", "2025-8-1..2025-8-2"] {
        assert!(!is_time_like_keyword(x), "{x}");
        assert_eq!(normalize_keywords(list(&[x])), list(&[x]), "{x}");
    }
    assert!(is_time_like_keyword("2025 - 08 - 02"));
}
