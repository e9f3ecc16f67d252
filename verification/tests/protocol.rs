use memory_store::protocol::{
    find_tool, global_summary, keywords_summary, negotiate_protocol, remembered_summary, Tool,
};

#[test]
fn the_protocol_version_is_one_of_the_two_known() {
    assert_eq!(negotiate_protocol(Some("2025-06-18")), "2025-06-18");
    assert_eq!(negotiate_protocol(Some("2024-11-05")), "2024-11-05");
    assert_eq!(negotiate_protocol(Some("2023-01-01")), "2025-06-18");
    assert_eq!(negotiate_protocol(Some("")), "2025-06-18");
    assert_eq!(negotiate_protocol(None), "2025-06-18");
}

#[test]
fn tools_list_should_include_keywords_tools() {
    let names: Vec<&str> = (0..5).map(|i| Tool::by_number(i).as_str()).collect();
    for name in ["now", "keywords_list", "keywords_list_global", "remember", "recall"] {
        assert!(names.contains(&name), "missing tool: {name}");
    }
    assert_eq!(find_tool("now"), Some(Tool::Now));
    assert_eq!(find_tool("keywords_list"), Some(Tool::KeywordsList));
    assert_eq!(find_tool("keywords_list_global"), Some(Tool::KeywordsListGlobal));
    assert_eq!(find_tool("remember"), Some(Tool::Remember));
    assert_eq!(find_tool("recall"), Some(Tool::Recall));
    assert_eq!(find_tool("forget"), None);
    assert_eq!(find_tool(""), None);
    assert_eq!(find_tool("Recall"), None);
}

#[test]
fn answers_are_summarized_in_one_line() {
    assert_eq!(remembered_summary("id-1", "u1/p1"), "已记录记忆：id-1（namespace=u1/p1）");
    assert_eq!(keywords_summary("u1/p1", 0), "namespace=u1/p1：暂无关键字。");
    assert_eq!(keywords_summary("u1/p1", 12), "namespace=u1/p1：共 12 个关键字。");
    assert_eq!(global_summary(0, 3), "全局：暂无关键字。");
    assert_eq!(global_summary(7, 3), "全局：共 7 个关键字，覆盖 3 个 namespace。");
}
