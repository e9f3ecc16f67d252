use memory_store::error::{Field, MemoryError};
use memory_store::model::{
    check_importance, clamp_limit, texts_of_list, truncate_one_line, ArgValue, Argument,
    Arguments, RecallArgs, RecallItemOut, RecallResult, RememberArgs,
};

fn arguments(entries: Vec<(&str, ArgValue)>) -> Arguments {
    Arguments {
        entries: entries
            .into_iter()
            .map(|(key, value)| Argument { key: key.to_string(), value })
            .collect(),
    }
}

fn text(s: &str) -> ArgValue {
    ArgValue::Text(s.to_string())
}

fn list(items: &[Option<&str>]) -> ArgValue {
    ArgValue::List(items.iter().map(|i| i.map(|s| s.to_string())).collect())
}

fn item(id: &str, slice: &str, keywords: &[&str], occurred_at: Option<&str>) -> RecallItemOut {
    RecallItemOut {
        id: id.to_string(),
        recorded_at: "2025-01-01T00:00:00Z".to_string(),
        occurred_at: occurred_at.map(|s| s.to_string()),
        keywords: keywords.iter().map(|k| k.to_string()).collect(),
        matched_keywords: None,
        slice: slice.to_string(),
        diary: None,
        importance: None,
        source: None,
    }
}

#[test]
fn the_limit_is_clamped() {
    assert_eq!(clamp_limit(None), 20);
    assert_eq!(clamp_limit(Some(0)), 20);
    assert_eq!(clamp_limit(Some(1)), 1);
    assert_eq!(clamp_limit(Some(20)), 20);
    assert_eq!(clamp_limit(Some(100)), 100);
    assert_eq!(clamp_limit(Some(101)), 100);
    assert_eq!(clamp_limit(Some(u64::MAX)), 100);
}

#[test]
fn the_importance_must_lie_between_one_and_five() {
    assert_eq!(check_importance(None), Ok(()));
    for ok in 1..=5u8 {
        assert_eq!(check_importance(Some(ok)), Ok(()));
    }
    for wrong in [0u8, 6, 7, 255] {
        assert_eq!(check_importance(Some(wrong)), Err(MemoryError::InvalidImportance));
    }
    assert_eq!(MemoryError::InvalidImportance.message(), "importance 必须在 1~5");
}

#[test]
fn a_request_to_remember_is_read_from_its_arguments() {
    let args = RememberArgs::from_json(&arguments(vec![
        ("namespace", text("  u1/p1 ")),
        ("keywords", list(&[Some(" ERP "), None, Some(""), Some("  "), Some("项目")])),
        ("slice", text(" slice ")),
        ("diary", text("diary\n")),
        ("occurred_at", text(" 2025-01-02 ")),
        ("importance", ArgValue::Unsigned(3)),
        ("source", text("   ")),
        ("extra", ArgValue::Other),
    ]))
    .unwrap();
    assert_eq!(args.namespace, "u1/p1");
    assert_eq!(args.keywords, vec!["ERP", "项目"]);
    assert_eq!(args.slice, "slice");
    assert_eq!(args.diary, "diary");
    assert_eq!(args.occurred_at.as_deref(), Some("2025-01-02"));
    assert_eq!(args.importance, Some(3));
    assert_eq!(args.source, None);

    let args = RememberArgs::from_json(&arguments(vec![
        ("namespace", text("u1/p1")),
        ("keywords", list(&[])),
        ("slice", text("s")),
        ("diary", text("d")),
        ("importance", ArgValue::Unsigned(5)),
        ("occurred_at", ArgValue::Unsigned(5)),
    ]))
    .unwrap();
    assert!(args.keywords.is_empty());
    assert_eq!(args.importance, Some(5));
    assert_eq!(args.occurred_at, None);

    let args = RememberArgs::from_json(&arguments(vec![
        ("namespace", text("u1/p1")),
        ("keywords", list(&[Some("k")])),
        ("slice", text("s")),
        ("diary", text("d")),
        ("importance", text("3")),
    ]))
    .unwrap();
    assert_eq!(args.importance, None);
}

#[test]
fn a_request_to_remember_names_what_is_missing() {
    let full = vec![
        ("namespace", text("u1/p1")),
        ("keywords", list(&[Some("k")])),
        ("slice", text("s")),
        ("diary", text("d")),
    ];
    let without = |key: &str| {
        arguments(full.iter().filter(|(k, _)| *k != key).cloned().collect())
    };
    assert_eq!(
        RememberArgs::from_json(&without("namespace")).err(),
        Some(MemoryError::EmptyField(Field::Namespace))
    );
    assert_eq!(
        RememberArgs::from_json(&without("keywords")).err(),
        Some(MemoryError::KeywordsNotArray)
    );
    assert_eq!(
        RememberArgs::from_json(&without("slice")).err(),
        Some(MemoryError::EmptyField(Field::Slice))
    );
    assert_eq!(
        RememberArgs::from_json(&without("diary")).err(),
        Some(MemoryError::EmptyField(Field::Diary))
    );
    assert_eq!(
        RememberArgs::from_json(&arguments(vec![])).err(),
        Some(MemoryError::EmptyField(Field::Namespace))
    );
    let mut blank = without("slice").entries;
    blank.push(Argument { key: "slice".to_string(), value: text(" \n ") });
    assert_eq!(
        RememberArgs::from_json(&Arguments { entries: blank }).err(),
        Some(MemoryError::EmptyField(Field::Slice))
    );
    let mut wrong = without("keywords").entries;
    wrong.push(Argument { key: "keywords".to_string(), value: text("k") });
    assert_eq!(
        RememberArgs::from_json(&Arguments { entries: wrong }).err(),
        Some(MemoryError::KeywordsNotArray)
    );
    assert_eq!(MemoryError::EmptyField(Field::Namespace).message(), "namespace 不能为空");
    assert_eq!(MemoryError::EmptyField(Field::Slice).message(), "slice 不能为空");
    assert_eq!(MemoryError::EmptyField(Field::Diary).message(), "diary 不能为空");
    assert_eq!(MemoryError::KeywordsNotArray.message(), "keywords 必须是字符串数组");
    assert_eq!(MemoryError::EmptyKeywords.message(), "keywords 不能为空");
    assert_eq!(
        MemoryError::InvalidNamespace.message(),
        "namespace 必须为 {userId}/{projectId}"
    );
}

#[test]
fn a_request_to_recall_is_read_from_its_arguments() {
    let args = RecallArgs::from_json(&arguments(vec![("namespace", text("u1/p1"))])).unwrap();
    assert_eq!(args.namespace, "u1/p1");
    assert!(args.keywords.is_empty());
    assert_eq!(args.start, None);
    assert_eq!(args.end, None);
    assert_eq!(args.query, None);
    assert_eq!(args.limit, 20);
    assert!(!args.include_diary);

    let args = RecallArgs::from_json(&arguments(vec![
        ("namespace", text("u1/p1")),
        ("keywords", list(&[Some("a"), Some(" b ")])),
        ("start", text(" 2025-01-01 ")),
        ("end", text("2025-12-31")),
        ("query", text(" x ")),
        ("limit", ArgValue::Unsigned(10)),
        ("include_diary", ArgValue::Bool(true)),
    ]))
    .unwrap();
    assert_eq!(args.keywords, vec!["a", "b"]);
    assert_eq!(args.start.as_deref(), Some("2025-01-01"));
    assert_eq!(args.end.as_deref(), Some("2025-12-31"));
    assert_eq!(args.query.as_deref(), Some("x"));
    assert_eq!(args.limit, 10);
    assert!(args.include_diary);

    for (given, expected) in [(0u64, 20usize), (1, 1), (100, 100), (101, 100), (u64::MAX, 100)] {
        let args = RecallArgs::from_json(&arguments(vec![
            ("namespace", text("u1/p1")),
            ("limit", ArgValue::Unsigned(given)),
        ]))
        .unwrap();
        assert_eq!(args.limit, expected);
    }

    let args = RecallArgs::from_json(&arguments(vec![
        ("namespace", text("u1/p1")),
        ("keywords", ArgValue::Null),
        ("limit", text("5")),
        ("include_diary", text("true")),
    ]))
    .unwrap();
    assert!(args.keywords.is_empty());
    assert_eq!(args.limit, 20);
    assert!(!args.include_diary);

    assert_eq!(
        RecallArgs::from_json(&arguments(vec![
            ("namespace", text("u1/p1")),
            ("keywords", text("a")),
        ]))
        .err(),
        Some(MemoryError::KeywordsNotArray)
    );
    assert_eq!(
        RecallArgs::from_json(&arguments(vec![("namespace", text("  "))])).err(),
        Some(MemoryError::EmptyField(Field::Namespace))
    );
}

#[test]
fn arguments_are_found_by_their_first_key() {
    let args = arguments(vec![
        ("a", text(" first ")),
        ("n", ArgValue::Unsigned(7)),
        ("a", text("second")),
    ]);
    assert_eq!(args.text("a").as_deref(), Some("first"));
    assert_eq!(args.text("n"), None);
    assert_eq!(args.text("missing"), None);
    assert_eq!(args.number("n"), Some(7));
    assert_eq!(args.number("a"), None);
    assert!(matches!(args.get("n"), Some(ArgValue::Unsigned(7))));
    assert!(args.get("zzz").is_none());
    assert_eq!(
        texts_of_list(&vec![Some(" a ".to_string()), None, Some("".to_string())]),
        vec!["a"]
    );
}

#[test]
fn a_slice_is_shown_on_one_line_and_cut_with_an_ellipsis() {
    let shown = |s: &str, n: usize| truncate_one_line(s, n).into_iter().collect::<String>();
    assert_eq!(shown("  a\nb\r\nc  ", 120), "a b  c");
    assert_eq!(shown("abcdef", 6), "abcdef");
    assert_eq!(shown("abcdef", 5), "abcde…");
    assert_eq!(shown("abcdef", 0), "…");
    assert_eq!(shown("", 0), "");
    assert_eq!(shown("\n\n", 3), "");
    assert_eq!(shown("我们做过项目", 4), "我们做过…");
    let long: String = "x".repeat(130);
    assert_eq!(shown(&long, 120), format!("{}…", "x".repeat(120)));
}

#[test]
fn a_recall_is_summarized_in_words() {
    assert_eq!(RecallResult::new(Vec::new()).render_text_summary(), "未命中记忆。");
    assert_eq!(RecallResult::new(Vec::new()).total, 0);

    let result = RecallResult::new(vec![
        item("id-1", "first\nline", &["erp", "项目"], Some("2025-05-01")),
        item("id-2", "second", &[], None),
    ]);
    assert_eq!(result.total, 2);
    assert_eq!(
        result.render_text_summary(),
        "命中 2 条记忆：\n\
         1. [2025-05-01] keywords=erp,项目 id=id-1 slice=first line\n\
         2. [2025-01-01T00:00:00Z] id=id-2 slice=second"
    );

    let many: Vec<RecallItemOut> =
        (0..12).map(|i| item(&format!("id-{i}"), "s", &["k"], None)).collect();
    let text = RecallResult::new(many).render_text_summary();
    assert!(text.starts_with("命中 12 条记忆：\n1. ["));
    assert!(text.ends_with("\n12. [2025-01-01T00:00:00Z] keywords=k id=id-11 slice=s"));
    assert_eq!(text.lines().count(), 13);
}

#[test]
fn an_importance_that_is_a_number_must_lie_between_one_and_five() {
    let call = |importance: ArgValue| {
        RememberArgs::from_json(&arguments(vec![
            ("namespace", text("u1/p1")),
            ("keywords", list(&[Some("k")])),
            ("slice", text("s")),
            ("diary", text("d")),
            ("importance", importance),
        ]))
    };
    for n in 1..=5u64 {
        assert_eq!(call(ArgValue::Unsigned(n)).unwrap().importance, Some(n as u8));
    }
    for n in [0u64, 6, 255, 256, 300, u64::MAX] {
        assert_eq!(call(ArgValue::Unsigned(n)).err(), Some(MemoryError::InvalidImportance), "{n}");
    }
    assert_eq!(call(ArgValue::Number).err(), Some(MemoryError::InvalidImportance));
    assert_eq!(call(ArgValue::Null).unwrap().importance, None);
    assert_eq!(call(text("3")).unwrap().importance, None);
    assert_eq!(call(ArgValue::Bool(true)).unwrap().importance, None);

    let blank_diary = RememberArgs::from_json(&arguments(vec![
        ("namespace", text("u1/p1")),
        ("keywords", list(&[Some("k")])),
        ("slice", text("s")),
        ("diary", text(" ")),
        ("importance", ArgValue::Number),
    ]));
    assert_eq!(blank_diary.err(), Some(MemoryError::EmptyField(Field::Diary)));
}
