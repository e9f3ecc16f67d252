use memory_store::error::MemoryError;
use memory_store::time::{
    choose_reading, is_ascii_text, is_date_shaped, is_time_text, parse_time_to_ts_and_canonical,
    patch_rfc3339_case, read_secs, DateBoundKind,
};

fn chars(s: &str) -> Vec<char> {
    s.chars().collect()
}

fn patched(s: &str) -> Option<String> {
    patch_rfc3339_case(&chars(s)).map(|v| v.into_iter().collect())
}

#[test]
fn parse_time_should_accept_lowercase_rfc3339_t_z() {
    let (ts1, c1) = parse_time_to_ts_and_canonical("2025-08-20T10:00:00Z", DateBoundKind::Start)
        .expect("parse upper");
    let (ts2, c2) = parse_time_to_ts_and_canonical("2025-08-20t10:00:00z", DateBoundKind::Start)
        .expect("parse lower");
    assert_eq!(ts1, ts2);
    assert_eq!(c1, c2);
    assert_eq!(ts1, 1755684000);
    assert_eq!(c1, "2025-08-20T10:00:00Z");
}

#[test]
fn a_bare_date_stands_for_its_first_or_last_second() {
    assert_eq!(
        parse_time_to_ts_and_canonical("2025-08-20", DateBoundKind::Start),
        Ok((1755648000, "2025-08-20".to_string()))
    );
    assert_eq!(
        parse_time_to_ts_and_canonical("2025-08-20", DateBoundKind::End),
        Ok((1755734399, "2025-08-20".to_string()))
    );
    assert_eq!(
        parse_time_to_ts_and_canonical("1970-01-01", DateBoundKind::Start),
        Ok((0, "1970-01-01".to_string()))
    );
    assert_eq!(
        parse_time_to_ts_and_canonical("1969-12-31", DateBoundKind::End),
        Ok((-1, "1969-12-31".to_string()))
    );
    assert_eq!(
        parse_time_to_ts_and_canonical("  2024-02-29\n", DateBoundKind::Start),
        Ok((1709164800, "2024-02-29".to_string()))
    );
}

#[test]
fn an_instant_is_brought_to_utc_with_whole_seconds() {
    for bound in [DateBoundKind::Start, DateBoundKind::End] {
        assert_eq!(
            parse_time_to_ts_and_canonical("2025-08-20T10:00:00+08:00", bound),
            Ok((1755655200, "2025-08-20T02:00:00Z".to_string()))
        );
        assert_eq!(
            parse_time_to_ts_and_canonical(" 2025-08-20T10:00:00.750Z ", bound),
            Ok((1755684000, "2025-08-20T10:00:00Z".to_string()))
        );
    }
}

#[test]
fn unreadable_times_are_refused() {
    for blank in ["", "   ", "\t\n"] {
        assert_eq!(
            parse_time_to_ts_and_canonical(blank, DateBoundKind::Start),
            Err(MemoryError::InvalidTime)
        );
    }
    for wrong in ["yesterday", "2025-13-01", "2025-02-30", "2025/08/20", "10:00:00", "2025-08-20T10:00:00"] {
        assert_eq!(
            parse_time_to_ts_and_canonical(wrong, DateBoundKind::End),
            Err(MemoryError::UnsupportedTimeFormat),
            "{wrong}"
        );
        assert!(!is_time_text(wrong, DateBoundKind::End));
    }
    assert!(is_time_text("2025-08-20", DateBoundKind::Start));
    assert_eq!(MemoryError::InvalidTime.message(), "时间不能为空");
    assert_eq!(
        MemoryError::UnsupportedTimeFormat.message(),
        "时间格式不支持：仅支持 RFC3339 或 YYYY-MM-DD"
    );
}

#[test]
fn the_case_patch_touches_only_the_separator_and_the_suffix() {
    assert_eq!(patched("2025-08-20t10:00:00z").as_deref(), Some("2025-08-20T10:00:00Z"));
    assert_eq!(patched("2025-08-20T10:00:00z").as_deref(), Some("2025-08-20T10:00:00Z"));
    assert_eq!(patched("2025-08-20t10:00:00Z").as_deref(), Some("2025-08-20T10:00:00Z"));
    assert_eq!(patched("2025-08-20t10:00:00+08:00").as_deref(), Some("2025-08-20T10:00:00+08:00"));
    assert_eq!(patched("0123456789t").as_deref(), Some("0123456789T"));
    assert_eq!(patched("z").as_deref(), Some("Z"));
    assert_eq!(patched("tz").as_deref(), Some("tZ"));
    assert_eq!(patched("2025-08-20T10:00:00Z"), None);
    assert_eq!(patched(""), None);
    assert_eq!(patched("t"), None);
    assert_eq!(patched("2025年08月20t10:00z"), None);
    assert!(is_ascii_text(&chars("plain ~ text")));
    assert!(!is_ascii_text(&chars("naïve")));
}

#[test]
fn the_first_reading_that_succeeds_is_chosen() {
    let a = Some((1, "a".to_string()));
    let b = Some((2, "b".to_string()));
    let c = Some((3, "c".to_string()));
    assert_eq!(choose_reading(a.clone(), b.clone(), c.clone()), Ok((1, "a".to_string())));
    assert_eq!(choose_reading(None, b.clone(), c.clone()), Ok((2, "b".to_string())));
    assert_eq!(choose_reading(None, None, c), Ok((3, "c".to_string())));
    assert_eq!(choose_reading(None, None, None), Err(MemoryError::UnsupportedTimeFormat));
    assert_eq!(choose_reading(a, None, None), Ok((1, "a".to_string())));
}

#[test]
fn seconds_are_read_where_the_text_reads() {
    assert_eq!(read_secs(&chars("2025-05-01"), DateBoundKind::Start), Some(1746057600));
    assert_eq!(read_secs(&chars("2025-05-01"), DateBoundKind::End), Some(1746143999));
    assert_eq!(read_secs(&chars("May Day"), DateBoundKind::Start), None);
}

#[test]
fn a_date_is_read_only_in_the_shape_of_ten_characters() {
    for wrong in [
        "2025-8-2",
        "2025-8-20",
        "2025-08-2",
        "25-08-20",
        "+2025-08-20",
        "02025-08-20",
        "2025- 8-20",
        "2025 -08-20",
        "2025-08-20 x",
        "2025.08.20",
        "20250820",
        "２０２５-08-20",
        "2025-08-2o",
        "-2025-08-20",
    ] {
        for bound in [DateBoundKind::Start, DateBoundKind::End] {
            assert_eq!(
                parse_time_to_ts_and_canonical(wrong, bound),
                Err(MemoryError::UnsupportedTimeFormat),
                "{wrong}"
            );
        }
        assert!(!is_date_shaped(&chars(wrong)), "{wrong}");
    }
    assert!(is_date_shaped(&chars("2025-08-20")));
    assert!(is_date_shaped(&chars("2025-13-99")));
    assert!(is_date_shaped(&chars("0000-00-00")));
    assert_eq!(
        parse_time_to_ts_and_canonical("2025-13-99", DateBoundKind::Start),
        Err(MemoryError::UnsupportedTimeFormat)
    );
    assert_eq!(
        parse_time_to_ts_and_canonical("0001-01-01", DateBoundKind::Start),
        Ok((-62135596800, "0001-01-01".to_string()))
    );
    assert_eq!(
        parse_time_to_ts_and_canonical("\t2025-08-02 ", DateBoundKind::Start),
        Ok((1754092800, "2025-08-02".to_string()))
    );
}

#[test]
fn an_instant_is_written_with_a_final_z() {
    for input in [
        "2025-08-20T10:00:00Z",
        "2025-08-20t10:00:00z",
        "2025-08-20 10:00:00+08:00",
        "2025-08-20T10:00:00.123456789-11:30",
        "0000-01-01T00:00:00+01:00",
        "9999-12-31T23:59:59-01:00",
    ] {
        let (_, canonical) = parse_time_to_ts_and_canonical(input, DateBoundKind::Start).unwrap();
        assert!(canonical.ends_with('Z'), "{input}: {canonical}");
        assert!(canonical.chars().count() >= 20, "{input}: {canonical}");
    }
    assert_eq!(
        parse_time_to_ts_and_canonical("0000-01-01T00:00:00+01:00", DateBoundKind::End),
        Ok((-62167222800, "-0001-12-31T23:00:00Z".to_string()))
    );
    assert_eq!(
        parse_time_to_ts_and_canonical("9999-12-31T23:59:59-01:00", DateBoundKind::End),
        Ok((253402304399, "+10000-01-01T00:59:59Z".to_string()))
    );
}
