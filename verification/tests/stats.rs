use memory_store::index::{IndexData, Posting};
use memory_store::stats::collect_global_keyword_stats;

fn index(namespace: &str, postings: &[(&str, usize)]) -> IndexData {
    let mut index = IndexData::new(namespace);
    for (keyword, count) in postings {
        index.keyword_postings.push(Posting {
            keyword: keyword.to_string(),
            items: (0..*count as u32).collect(),
        });
    }
    index
}

fn shown(indexes: &Vec<IndexData>) -> (usize, Vec<(String, usize, usize)>) {
    let stats = collect_global_keyword_stats(indexes);
    (
        stats.scanned_namespaces,
        stats.keywords.iter().map(|k| (k.keyword.clone(), k.namespaces, k.items)).collect(),
    )
}

#[test]
fn nothing_is_found_where_nothing_is_stored() {
    assert_eq!(shown(&Vec::new()), (0, vec![]));
    assert_eq!(shown(&vec![index("u1/p1", &[])]), (1, vec![]));
}

#[test]
fn keywords_are_counted_across_namespaces() {
    let indexes = vec![
        index("u1/p1", &[("erp", 2), ("项目", 1), ("zz", 1)]),
        index("u1/p2", &[("ab", 3), ("erp", 1)]),
        index("u2/p1", &[("ab", 1), ("aa", 1), ("x", 4)]),
    ];
    assert_eq!(
        shown(&indexes),
        (
            3,
            vec![
                ("x".to_string(), 1, 4),
                ("ab".to_string(), 2, 4),
                ("aa".to_string(), 1, 1),
                ("zz".to_string(), 1, 1),
                ("项目".to_string(), 1, 1),
                ("erp".to_string(), 2, 3),
            ]
        )
    );
}

#[test]
fn stored_keywords_are_counted_under_their_normal_form() {
    let indexes = vec![index(
        "u1/p1",
        &[(" ERP ", 2), ("erp", 1), ("2025-08-20", 5), ("8月", 1), ("   ", 3), ("", 1)],
    )];
    assert_eq!(shown(&indexes), (1, vec![("erp".to_string(), 2, 3)]));
}

#[test]
fn an_index_of_another_version_is_passed_over() {
    let mut old = index("u1/p1", &[("old", 9)]);
    old.version = 2;
    let indexes = vec![old, index("u1/p2", &[("new", 1)])];
    assert_eq!(shown(&indexes), (1, vec![("new".to_string(), 1, 1)]));
}
