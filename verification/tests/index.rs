use memory_store::index::{IndexData, IndexItem, Posting, INDEX_VERSION};
use memory_store::model::MemoryItem;

fn record(id: &str, importance: Option<u8>) -> MemoryItem {
    MemoryItem {
        id: id.to_string(),
        namespace: "u1/p1".to_string(),
        recorded_at: "2025-01-01T00:00:00Z".to_string(),
        occurred_at: None,
        keywords: Vec::new(),
        slice: "s".to_string(),
        diary: "d".to_string(),
        importance,
        source: None,
    }
}

fn words(items: &[&str]) -> Vec<String> {
    items.iter().map(|s| s.to_string()).collect()
}

fn postings(index: &IndexData) -> Vec<(String, Vec<u32>)> {
    index.keyword_postings.iter().map(|p| (p.keyword.clone(), p.items.clone())).collect()
}

#[test]
fn a_new_index_is_empty_and_consistent() {
    let index = IndexData::new("u1/p1");
    assert_eq!(INDEX_VERSION, 1);
    assert_eq!(index.version, 1);
    assert_eq!(index.namespace, "u1/p1");
    assert_eq!(index.memories_file, "memories.jsonl");
    assert_eq!(index.indexed_up_to_offset, 0);
    assert!(index.items.is_empty());
    assert!(index.keyword_postings.is_empty());
    assert!(index.time_sorted.is_empty());
    assert!(!index.time_sorted_dirty);
    assert!(index.is_consistent());
}

#[test]
fn the_time_key_is_the_time_of_occurrence_where_known() {
    let mut item = IndexItem {
        id: "a".to_string(),
        offset: 0,
        length: 1,
        recorded_at_ts: 100,
        occurred_at_ts: None,
        importance: None,
        keywords: Vec::new(),
    };
    assert_eq!(item.time_key_ts(), 100);
    item.occurred_at_ts = Some(-5);
    assert_eq!(item.time_key_ts(), -5);
}

#[test]
fn adding_a_record_files_it_under_its_keywords() {
    let mut index = IndexData::new("u1/p1");
    index.add_memory_item(&record("a", Some(3)), 0, 10, 100, None, words(&["erp", "项目"]));
    assert_eq!(index.items.len(), 1);
    assert_eq!(index.items[0].id, "a");
    assert_eq!(index.items[0].offset, 0);
    assert_eq!(index.items[0].length, 10);
    assert_eq!(index.items[0].recorded_at_ts, 100);
    assert_eq!(index.items[0].occurred_at_ts, None);
    assert_eq!(index.items[0].importance, Some(3));
    assert_eq!(index.items[0].keywords, words(&["erp", "项目"]));
    assert_eq!(index.time_sorted, vec![0]);
    assert!(index.time_sorted_dirty);
    assert_eq!(index.indexed_up_to_offset, 0);

    index.add_memory_item(&record("b", None), 10, 5, 200, Some(50), words(&["项目", "new"]));
    assert_eq!(
        postings(&index),
        vec![
            ("erp".to_string(), vec![0]),
            ("项目".to_string(), vec![0, 1]),
            ("new".to_string(), vec![1]),
        ]
    );
    assert_eq!(index.time_sorted, vec![0, 1]);
    assert_eq!(index.find_posting(&"项目".to_string()), Some(1));
    assert_eq!(index.find_posting(&"none".to_string()), None);
    assert_eq!(index.time_key_at(0), 100);
    assert_eq!(index.time_key_at(1), 50);
    assert_eq!(index.time_key_at(2), 0);

    index.indexed_up_to_offset = 15;
    assert!(index.is_consistent());
}

#[test]
fn settling_orders_by_time_and_keeps_ties_in_place() {
    let mut index = IndexData::new("u1/p1");
    let times: [(i64, Option<i64>); 6] =
        [(50, None), (10, Some(70)), (30, None), (99, Some(30)), (70, None), (5, None)];
    for (i, (recorded, occurred)) in times.iter().enumerate() {
        index.add_memory_item(&record(&format!("r{i}"), None), 0, 0, *recorded, *occurred, vec![]);
    }
    assert_eq!(index.time_sorted, vec![0, 1, 2, 3, 4, 5]);
    assert!(index.time_sorted_dirty);

    index.ensure_time_sorted();
    assert_eq!(index.time_sorted, vec![5, 2, 3, 0, 1, 4]);
    assert!(!index.time_sorted_dirty);
    assert!(index.is_consistent());
    assert_eq!(index.iter_time_candidates(None, None), vec![4, 1, 0, 3, 2, 5]);
    assert_eq!(index.iter_time_candidates(Some(30), Some(50)), vec![0, 3, 2]);
    assert_eq!(index.iter_time_candidates(Some(71), None), Vec::<u32>::new());

    index.time_sorted = vec![4, 1, 0];
    index.ensure_time_sorted();
    assert_eq!(index.time_sorted, vec![4, 1, 0]);

    index.time_sorted = vec![9, 4, 7, 5];
    index.time_sorted_dirty = true;
    index.ensure_time_sorted();
    assert_eq!(index.time_sorted, vec![9, 7, 5, 4]);
}

#[test]
fn matches_are_ranked_by_hits_importance_and_time() {
    let mut index = IndexData::new("u1/p1");
    index.add_memory_item(&record("r0", Some(5)), 0, 0, 1, None, words(&["a"]));
    index.add_memory_item(&record("r1", None), 0, 0, 2, None, words(&["a", "b"]));
    index.add_memory_item(&record("r2", Some(4)), 0, 0, 3, None, words(&["b"]));
    index.add_memory_item(&record("r3", None), 0, 0, 4, None, words(&["a"]));
    index.add_memory_item(&record("r4", None), 0, 0, 4, None, words(&["a"]));
    index.add_memory_item(&record("r5", None), 0, 0, 9, None, words(&["c"]));

    let shown = |index: &IndexData, keywords: &[&str], start, end| -> Vec<(u32, usize, u8, i64)> {
        index
            .rank_matches(&words(keywords), start, end)
            .iter()
            .map(|s| (s.idx, s.hits, s.importance, s.time_key))
            .collect()
    };
    assert_eq!(
        shown(&index, &["a", "b"], None, None),
        vec![(1, 2, 0, 2), (0, 1, 5, 1), (2, 1, 4, 3), (3, 1, 0, 4), (4, 1, 0, 4)]
    );
    assert_eq!(shown(&index, &["a", "b"], Some(2), Some(3)), vec![(1, 2, 0, 2), (2, 1, 4, 3)]);
    assert_eq!(shown(&index, &["zzz"], None, None), vec![]);
    assert_eq!(shown(&index, &[], None, None), vec![]);
    assert_eq!(shown(&index, &["c"], None, None), vec![(5, 1, 0, 9)]);
}

#[test]
fn an_inconsistent_index_is_recognized() {
    let sound = || {
        let mut index = IndexData::new("u1/p1");
        index.add_memory_item(&record("a", None), 0, 10, 100, None, words(&["k", "m"]));
        index.add_memory_item(&record("b", None), 10, 5, 50, None, words(&["k"]));
        index.indexed_up_to_offset = 15;
        index
    };
    assert!(sound().is_consistent());

    let mut settled = sound();
    settled.ensure_time_sorted();
    assert_eq!(settled.time_sorted, vec![1, 0]);
    assert!(settled.is_consistent());

    let mut index = sound();
    index.time_sorted_dirty = false;
    assert!(!index.is_consistent());

    let mut index = sound();
    index.time_sorted = vec![0, 0];
    assert!(!index.is_consistent());

    let mut index = sound();
    index.time_sorted = vec![0];
    assert!(!index.is_consistent());

    let mut index = sound();
    index.time_sorted = vec![0, 2];
    assert!(!index.is_consistent());

    let mut index = sound();
    index.keyword_postings[0].items = vec![1, 0];
    assert!(!index.is_consistent());

    let mut index = sound();
    index.keyword_postings[0].items = vec![0, 0];
    assert!(!index.is_consistent());

    let mut index = sound();
    index.keyword_postings[0].items = vec![0, 2];
    assert!(!index.is_consistent());

    let mut index = sound();
    index.keyword_postings[1].items.clear();
    assert!(!index.is_consistent());

    let mut index = sound();
    index.keyword_postings.push(Posting { keyword: "k".to_string(), items: vec![1] });
    assert!(!index.is_consistent());

    let mut index = sound();
    index.indexed_up_to_offset = 14;
    assert!(!index.is_consistent());

    let mut index = sound();
    index.keyword_postings[1].items = vec![1];
    assert!(!index.is_consistent());

    let mut index = sound();
    index.keyword_postings[1].items = vec![0, 1];
    assert!(!index.is_consistent());

    let mut index = sound();
    index.items[1].keywords.push("m".to_string());
    assert!(!index.is_consistent());

    let mut index = sound();
    index.items[0].keywords = vec!["k".to_string()];
    assert!(!index.is_consistent());

    let mut index = sound();
    index.keyword_postings.push(Posting { keyword: "z".to_string(), items: vec![1] });
    assert!(!index.is_consistent());
    index.items[1].keywords.push("z".to_string());
    assert!(index.is_consistent());

    let mut index = sound();
    index.items[0].offset = u64::MAX;
    assert!(!index.is_consistent());
}
