use memory_store::engine::{
    now_local_rfc3339_and_offset_seconds, now_rfc3339_and_ts, report_now, stamp_now,
    write_offset, MemoryEngine,
};
use memory_store::error::MemoryError;
use memory_store::index::IndexData;
use memory_store::log::{split_log_lines, LogLine};
use memory_store::model::{
    check_importance, ArgValue, Argument, Arguments, MemoryItem, RecallArgs, RecallResult,
    RememberArgs,
};
use memory_store::namespace::{try_resolve_namespace_dir, StorePaths};
use memory_store::protocol::{keywords_summary, remembered_summary};
use memory_store::stats::{collect_global_keyword_stats, GlobalKeywordStats};
use memory_store::store::{RememberRecorded, SyncAction};
use memory_store::time::{parse_time_to_ts_and_canonical, DateBoundKind};
use serde_json::Value;
use std::collections::HashMap;

/// The engine over files that are held in memory, one log and one index
/// file for each directory.
struct App {
    engine: MemoryEngine,
    logs: HashMap<String, Vec<u8>>,
    indexes: HashMap<String, IndexData>,
}

fn text(value: &str) -> Value {
    Value::String(value.to_string())
}

fn encode(item: &MemoryItem) -> Vec<u8> {
    let mut m = serde_json::Map::new();
    m.insert("id".to_string(), text(&item.id));
    m.insert("namespace".to_string(), text(&item.namespace));
    m.insert("recorded_at".to_string(), text(&item.recorded_at));
    if let Some(at) = &item.occurred_at {
        m.insert("occurred_at".to_string(), text(at));
    }
    m.insert(
        "keywords".to_string(),
        Value::Array(item.keywords.iter().map(|k| text(k)).collect()),
    );
    m.insert("slice".to_string(), text(&item.slice));
    m.insert("diary".to_string(), text(&item.diary));
    if let Some(n) = item.importance {
        m.insert("importance".to_string(), Value::from(n));
    }
    if let Some(source) = &item.source {
        m.insert("source".to_string(), text(source));
    }
    serde_json::to_vec(&Value::Object(m)).unwrap()
}

fn optional_text(m: &serde_json::Map<String, Value>, key: &str) -> Option<Option<String>> {
    match m.get(key) {
        None | Some(Value::Null) => Some(None),
        Some(Value::String(s)) => Some(Some(s.clone())),
        Some(_) => None,
    }
}

fn decode(line: &[u8]) -> Option<MemoryItem> {
    let value: Value = serde_json::from_slice(line).ok()?;
    let m = value.as_object()?;
    let mut keywords = Vec::new();
    for k in m.get("keywords")?.as_array()? {
        keywords.push(k.as_str()?.to_string());
    }
    let importance = match m.get("importance") {
        None | Some(Value::Null) => None,
        Some(n) => Some(u8::try_from(n.as_u64()?).ok()?),
    };
    Some(MemoryItem {
        id: m.get("id")?.as_str()?.to_string(),
        namespace: m.get("namespace")?.as_str()?.to_string(),
        recorded_at: m.get("recorded_at")?.as_str()?.to_string(),
        occurred_at: optional_text(m, "occurred_at")?,
        keywords,
        slice: m.get("slice")?.as_str()?.to_string(),
        diary: m.get("diary")?.as_str()?.to_string(),
        importance,
        source: optional_text(m, "source")?,
    })
}

fn body(line: &[u8]) -> &[u8] {
    line.strip_suffix(b"\r\n").or_else(|| line.strip_suffix(b"\n")).unwrap_or(line)
}

impl App {
    fn new(root: &str) -> App {
        App { engine: MemoryEngine::new(root.to_string()), logs: HashMap::new(), indexes: HashMap::new() }
    }

    fn open(&mut self, namespace: &str) -> Result<usize, MemoryError> {
        let paths = StorePaths::new(self.engine.root_dir(), namespace)?;
        if let Some(at) = self.engine.find(&paths.namespace) {
            return Ok(at);
        }
        self.logs.entry(paths.namespace_dir.clone()).or_default();
        let stored = self.indexes.get(&paths.namespace_dir).cloned();
        let slot = self.engine.get_or_open_namespace(namespace, stored)?;
        if slot.must_save {
            let index = self.engine.state(slot.position).index().clone();
            self.indexes.insert(paths.namespace_dir, index);
        }
        Ok(slot.position)
    }

    fn sync(&mut self, slot: usize) {
        let dir = self.engine.state(slot).paths().namespace_dir.clone();
        let log = self.logs.get(&dir).unwrap();
        if let SyncAction::ReadFrom(from) = self.engine.sync_index(slot, log.len() as u64) {
            let tail = &log[from as usize..];
            let lines: Vec<LogLine> = split_log_lines(tail)
                .iter()
                .map(|span| LogLine {
                    length: u32::try_from(span.length).unwrap(),
                    record: decode(&tail[span.start..span.start + span.body_len]),
                })
                .collect();
            self.engine.index_lines(slot, &lines);
            self.indexes.insert(dir, self.engine.state(slot).index().clone());
        }
    }

    fn remember(&mut self, args: RememberArgs) -> Result<(String, RememberRecorded), MemoryError> {
        let slot = self.open(&args.namespace)?;
        check_importance(args.importance)?;
        self.sync(slot);
        let dir = self.engine.state(slot).paths().namespace_dir.clone();
        let namespace = self.engine.state(slot).namespace().to_string();
        let pending = self.engine.remember(slot, args)?;
        let mut line = encode(&pending.item);
        line.push(b'\n');
        let log = self.logs.get_mut(&dir).unwrap();
        let offset = log.len() as u64;
        let length = u32::try_from(line.len()).unwrap();
        log.extend_from_slice(&line);
        let recorded = self.engine.append_memory(slot, pending, offset, length);
        self.indexes.insert(dir, self.engine.state(slot).index().clone());
        Ok((namespace, recorded))
    }

    fn recall(&mut self, args: RecallArgs) -> Result<(String, RecallResult), MemoryError> {
        let slot = self.open(&args.namespace)?;
        self.sync(slot);
        let dir = self.engine.state(slot).paths().namespace_dir.clone();
        let plan = self.engine.plan_recall(slot, args)?;
        let log = self.logs.get(&dir).unwrap();
        let state = self.engine.state(slot);
        let namespace = state.namespace().to_string();
        let mut results = Vec::new();
        let mut visited = 0usize;
        while plan.wants_more(visited, results.len()) {
            let record = state.locate(plan.candidates[visited]).and_then(|(offset, length)| {
                let from = offset as usize;
                log.get(from..from + length as usize).and_then(|line| decode(body(line)))
            });
            if let Some(out) = plan.consider(record.as_ref())? {
                results.push(out);
            }
            visited += 1;
        }
        Ok((namespace, RecallResult::new(results)))
    }

    fn keywords_list(&mut self, namespace: &str) -> Result<(String, Vec<String>), MemoryError> {
        let slot = self.open(namespace.trim())?;
        self.sync(slot);
        Ok((self.engine.state(slot).namespace().to_string(), self.engine.keywords_list(slot)))
    }

    fn keywords_list_global(&self) -> GlobalKeywordStats {
        let mut dirs: Vec<&String> = self.indexes.keys().collect();
        dirs.sort();
        let indexes: Vec<IndexData> = dirs.into_iter().map(|d| self.indexes[d].clone()).collect();
        collect_global_keyword_stats(&indexes)
    }
}

fn arguments(entries: Vec<(&str, ArgValue)>) -> Arguments {
    Arguments {
        entries: entries
            .into_iter()
            .map(|(key, value)| Argument { key: key.to_string(), value })
            .collect(),
    }
}

fn words(items: &[&str]) -> ArgValue {
    ArgValue::List(items.iter().map(|s| Some(s.to_string())).collect())
}

fn word(s: &str) -> ArgValue {
    ArgValue::Text(s.to_string())
}

fn remember_call(namespace: &str, keywords: &[&str], slice: &str) -> Arguments {
    arguments(vec![
        ("namespace", word(namespace)),
        ("keywords", words(keywords)),
        ("slice", word(slice)),
        ("diary", word("diary")),
    ])
}

#[test]
fn tools_call_now_should_return_time_fields() {
    let app = App::new("/tmp/root");
    let report = app.engine.now();

    assert!(!report.utc_rfc3339.is_empty());
    assert!(report.utc_ts > 0);
    assert!(!report.local_rfc3339.is_empty());
    assert!(report.local_offset_seconds.abs() < 24 * 3600);
    assert_eq!(report.local_offset_minutes, report.local_offset_seconds / 60);

    let utc = parse_time_to_ts_and_canonical(&report.utc_rfc3339, DateBoundKind::Start).unwrap();
    assert_eq!(utc, (report.utc_ts, report.utc_rfc3339.clone()));
    let offset: String = write_offset(report.local_offset_seconds).into_iter().collect();
    assert_eq!(
        report.text,
        format!(
            "当前时间：{}（本地，UTC{}）｜{}（UTC）",
            report.local_rfc3339, offset, report.utc_rfc3339
        )
    );
}

#[test]
fn a_negative_importance_is_refused_and_nothing_is_written() {
    let mut app = App::new("/tmp/root");
    let mut call = remember_call("u1/p1", &["k"], "slice");
    call.entries.push(Argument { key: "importance".to_string(), value: ArgValue::Number });
    let err = RememberArgs::from_json(&call).err().expect("should error");
    assert_eq!(err, MemoryError::InvalidImportance);
    assert!(err.message().contains("importance"));
    assert!(app.logs.is_empty());
    assert!(app.open("u1/p1").is_ok());
    assert!(app.logs["/tmp/root/u1/p1"].is_empty());
}

#[test]
fn a_record_is_entered_under_the_seconds_that_its_time_of_recording_reads_as() {
    let mut app = App::new("/tmp/root");
    let (_, recorded) = app
        .remember(RememberArgs::from_json(&remember_call("u1/p1", &["k"], "slice")).unwrap())
        .unwrap();
    assert_eq!(recorded.id.chars().count(), 36);
    assert!(recorded.recorded_at.chars().count() >= 20);
    let slot = app.open("u1/p1").unwrap();
    let item = &app.engine.state(slot).index().items[0];
    let (secs, canonical) =
        parse_time_to_ts_and_canonical(&recorded.recorded_at, DateBoundKind::Start).unwrap();
    assert_eq!(item.recorded_at_ts, secs);
    assert_eq!(canonical, recorded.recorded_at);
    assert!(item.recorded_at_ts > 1_700_000_000);
}

#[test]
fn the_stamp_carries_the_seconds_that_its_text_reads_as() {
    let (text, secs) = stamp_now();
    assert_eq!(parse_time_to_ts_and_canonical(&text, DateBoundKind::Start), Ok((secs, text.clone())));
    assert!(text.chars().count() >= 20);
    assert!(secs > 1_700_000_000);

    let report = MemoryEngine::new("/tmp/root".to_string()).now();
    assert_eq!(
        parse_time_to_ts_and_canonical(&report.utc_rfc3339, DateBoundKind::End),
        Ok((report.utc_ts, report.utc_rfc3339.clone()))
    );
}

#[test]
fn the_clock_reads_in_canonical_form() {
    let (text, ts) = now_rfc3339_and_ts();
    assert_eq!(parse_time_to_ts_and_canonical(&text, DateBoundKind::End), Ok((ts, text.clone())));
    assert!(text.ends_with('Z'));
    assert_eq!(text.len(), 20);

    assert!(ts >= 0);

    let (local, offset) = now_local_rfc3339_and_offset_seconds();
    assert!(local.chars().count() >= 20);
    let (local_ts, _) = parse_time_to_ts_and_canonical(&local, DateBoundKind::Start).unwrap();
    assert!((local_ts - ts).abs() <= 2);
    assert!(offset.abs() < 24 * 3600);
}

#[test]
fn the_time_report_is_made_of_what_the_clocks_gave() {
    let shown = |offset: i32| write_offset(offset).into_iter().collect::<String>();
    assert_eq!(shown(0), "+00:00");
    assert_eq!(shown(8 * 3600), "+08:00");
    assert_eq!(shown(-(3 * 3600 + 30 * 60)), "-03:30");
    assert_eq!(shown(59), "+00:00");
    assert_eq!(shown(-59), "-00:00");
    assert_eq!(shown(5 * 3600 + 45 * 60 + 59), "+05:45");
    assert_eq!(shown(i32::MAX), "+596523:14");
    assert_eq!(shown(i32::MIN), "-596523:14");

    let report = report_now(
        "2025-08-20T02:00:00Z".to_string(),
        1755655200,
        "2025-08-20T10:00:00+08:00".to_string(),
        28800,
    );
    assert_eq!(report.utc_rfc3339, "2025-08-20T02:00:00Z");
    assert_eq!(report.utc_ts, 1755655200);
    assert_eq!(report.local_rfc3339, "2025-08-20T10:00:00+08:00");
    assert_eq!(report.local_offset_seconds, 28800);
    assert_eq!(report.local_offset_minutes, 480);
    assert_eq!(
        report.text,
        "当前时间：2025-08-20T10:00:00+08:00（本地，UTC+08:00）｜2025-08-20T02:00:00Z（UTC）"
    );
    let west = report_now("u".to_string(), 0, "l".to_string(), -12_630);
    assert_eq!(west.local_offset_minutes, -210);
    assert_eq!(west.text, "当前时间：l（本地，UTC-03:30）｜u（UTC）");
    assert_eq!(report_now("u".to_string(), 0, "l".to_string(), -59).local_offset_minutes, 0);
}

#[test]
fn tools_call_keywords_list_should_work() {
    let mut app = App::new("/tmp/root");
    let remember = RememberArgs::from_json(&remember_call("u1/p1", &["ERP", "项目"], "slice"))
        .expect("arguments");
    let (namespace, recorded) = app.remember(remember).expect("response");
    assert_eq!(
        remembered_summary(&recorded.id, &namespace),
        format!("已记录记忆：{}（namespace=u1/p1）", recorded.id)
    );

    let (namespace, keywords) = app.keywords_list("u1/p1").expect("response");
    assert_eq!(keywords[0], "项目");
    assert_eq!(keywords[1], "erp");
    assert_eq!(keywords.len(), 2);
    assert_eq!(keywords_summary(&namespace, keywords.len()), "namespace=u1/p1：共 2 个关键字。");
}

#[test]
fn tools_call_keywords_list_should_work_with_noncanonical_namespace() {
    let mut app = App::new("/tmp/root");
    let remember = RememberArgs::from_json(&remember_call("u1\\p1//", &["ERP", "项目"], "slice"))
        .expect("arguments");
    app.remember(remember).expect("response");

    let (namespace, keywords) = app.keywords_list("u1/p1").expect("response");
    assert_eq!(namespace, "u1/p1");
    assert_eq!(keywords[0], "项目");
    assert_eq!(keywords[1], "erp");

    let (namespace, again) = app.keywords_list(" u1\\p1// ").expect("response");
    assert_eq!(namespace, "u1/p1");
    assert_eq!(again, keywords);
    assert_eq!(app.logs.len(), 1);
}

#[test]
fn tools_call_keywords_list_global_should_include_keywords() {
    let mut app = App::new("/tmp/root");
    let remember = RememberArgs::from_json(&remember_call("u1/p1", &["ERP", "项目"], "slice"))
        .expect("arguments");
    app.remember(remember).expect("response");

    let stats = app.keywords_list_global();
    assert_eq!(stats.scanned_namespaces, 1);
    assert!(stats.keywords.iter().any(|x| x.keyword == "项目"));
    assert!(stats.keywords.iter().any(|x| x.keyword == "erp"));
    let shown: Vec<(&str, usize, usize)> =
        stats.keywords.iter().map(|k| (k.keyword.as_str(), k.namespaces, k.items)).collect();
    assert_eq!(shown, vec![("项目", 1, 1), ("erp", 1, 1)]);

    let other = RememberArgs::from_json(&remember_call("u2/p9", &["erp"], "slice")).unwrap();
    app.remember(other.clone()).unwrap();
    app.remember(other).unwrap();
    let stats = app.keywords_list_global();
    assert_eq!(stats.scanned_namespaces, 2);
    let shown: Vec<(&str, usize, usize)> =
        stats.keywords.iter().map(|k| (k.keyword.as_str(), k.namespaces, k.items)).collect();
    assert_eq!(shown, vec![("项目", 1, 1), ("erp", 2, 3)]);
}

#[test]
fn tools_call_recall_should_include_matched_keywords_when_keywords_provided() {
    let mut app = App::new("/tmp/root");
    let remember = RememberArgs::from_json(&remember_call("u1/p1", &["ERP", "项目"], "slice"))
        .expect("arguments");
    app.remember(remember).expect("response");

    let recall = RecallArgs::from_json(&arguments(vec![
        ("namespace", word("u1/p1")),
        ("keywords", words(&["ERP", "项目"])),
        ("limit", ArgValue::Unsigned(10)),
    ]))
    .expect("arguments");
    let (_, result) = app.recall(recall).expect("response");
    assert_eq!(result.items.len(), 1);
    let mk = result.items[0].matched_keywords.as_ref().expect("matched_keywords");
    assert_eq!(mk[0], "项目");
    assert_eq!(mk[1], "erp");
    assert_eq!(mk.len(), 2);
}

#[test]
fn tools_call_recall_without_keywords_should_not_return_matched_keywords() {
    let mut app = App::new("/tmp/root");
    let remember = RememberArgs::from_json(&remember_call("u1/p1", &["ERP", "项目"], "slice"))
        .expect("arguments");
    app.remember(remember).expect("response");

    let recall = RecallArgs::from_json(&arguments(vec![
        ("namespace", word("u1/p1")),
        ("limit", ArgValue::Unsigned(10)),
    ]))
    .expect("arguments");
    let (_, result) = app.recall(recall).expect("response");
    assert_eq!(result.items.len(), 1);
    assert!(result.items[0].matched_keywords.is_none());

    let only_times = RecallArgs::from_json(&arguments(vec![
        ("namespace", word("u1/p1")),
        ("keywords", words(&["2025-08-20", "  "])),
    ]))
    .expect("arguments");
    let (_, result) = app.recall(only_times).expect("response");
    assert_eq!(result.items.len(), 1);
    assert!(result.items[0].matched_keywords.is_none());
}

#[test]
fn tools_call_remember_importance_out_of_range_should_error() {
    let mut app = App::new("/tmp/root");
    let mut call = remember_call("u1/p1", &["项目"], "slice");
    call.entries.push(Argument { key: "importance".to_string(), value: ArgValue::Unsigned(6) });

    let err = RememberArgs::from_json(&call)
        .and_then(|remember| app.remember(remember))
        .err()
        .expect("should error")
        .message();
    assert!(err.contains("importance"), "unexpected err: {err}");
    assert!(app.logs.is_empty());
}

#[test]
fn tools_call_recall_should_support_query_time_expr() {
    let mut app = App::new("/tmp/root");
    for (slice, occurred_at) in [("older", "2025-04-01"), ("newer", "2025-05-01")] {
        let mut call = remember_call("u1/p1", &["k"], slice);
        call.entries.push(Argument { key: "occurred_at".to_string(), value: word(occurred_at) });
        app.remember(RememberArgs::from_json(&call).expect("arguments")).expect("response");
    }

    let recall = RecallArgs::from_json(&arguments(vec![
        ("namespace", word("u1/p1")),
        ("query", word("time>=2025-05-01")),
        ("limit", ArgValue::Unsigned(10)),
    ]))
    .expect("arguments");
    let (_, result) = app.recall(recall).expect("response");
    assert_eq!(result.items.len(), 1);
    assert_eq!(result.items[0].slice, "newer");
}

#[test]
fn extract_primary_text_should_find_summary() {
    let mut app = App::new("/tmp/root");
    app.remember(RememberArgs {
        namespace: "u1/p1".to_string(),
        keywords: vec!["项目".to_string()],
        slice: "我们做过 A 项目".to_string(),
        diary: "diary".to_string(),
        occurred_at: None,
        importance: None,
        source: None,
    })
    .expect("remember");

    let (_, out) = app
        .recall(RecallArgs {
            namespace: "u1/p1".to_string(),
            keywords: vec!["项目".to_string()],
            start: None,
            end: None,
            query: None,
            limit: 20,
            include_diary: false,
        })
        .expect("recall");

    let text = out.render_text_summary();
    assert!(text.contains("命中"));
    assert!(text.starts_with("命中 1 条记忆：\n1. ["));
    assert!(text.ends_with(&format!("] keywords=项目 id={} slice=我们做过 A 项目", out.items[0].id)));
}

#[test]
fn every_spelling_of_a_namespace_reaches_the_same_open_state() {
    let mut app = App::new("/tmp/root");
    let first = app.open("u1/p1").unwrap();
    for spelling in ["u1\\p1//", " u1/p1 ", "./u1/../p1", "u1/./p1/", "/u1//p1", "u1 / p1"] {
        assert_eq!(app.open(spelling).unwrap(), first, "{spelling}");
    }
    let second = app.open("u1/p2").unwrap();
    assert_ne!(second, first);
    assert_eq!(app.engine.state(first).namespace(), "u1/p1");
    assert_eq!(app.engine.state(second).namespace(), "u1/p2");
    assert_eq!(app.engine.find("u1/p1"), Some(first));
    assert_eq!(app.engine.find("u1/p3"), None);
    assert_eq!(app.engine.root_dir(), "/tmp/root");

    for wrong in ["", "  ", "u1", "a/b/c", "../..", "./."] {
        assert_eq!(app.open(wrong).err(), Some(MemoryError::InvalidNamespace), "{wrong}");
    }
}

#[test]
fn opening_refuses_a_stored_index_that_is_not_consistent() {
    let mut app = App::new("/tmp/root");
    let mut broken = IndexData::new("u1/p1");
    broken.time_sorted.push(0);
    app.indexes.insert("/tmp/root/u1/p1".to_string(), broken);
    assert_eq!(app.open("u1/p1").err(), Some(MemoryError::IndexCorrupt));
    assert_eq!(MemoryError::IndexCorrupt.message(), "index.json 内容不一致");
    assert_eq!(MemoryError::RecordUnreadable.message(), "读取记忆记录失败");
}

#[test]
fn a_directory_is_resolved_only_for_a_namespace_of_two_segments() {
    assert_eq!(
        try_resolve_namespace_dir("C:/tmp/root", "../a/..//b"),
        Ok("C:/tmp/root/a/b".to_string())
    );
    assert_eq!(try_resolve_namespace_dir("/r", "u1\\p1//"), Ok("/r/u1/p1".to_string()));
    for wrong in ["", "a", "a/b/c", ".."] {
        assert_eq!(try_resolve_namespace_dir("/r", wrong), Err(MemoryError::InvalidNamespace));
    }
}

#[test]
fn namespaces_are_sanitized_into_safe_directories() {
    let paths = StorePaths::new("/data", " a:b*c / ..d.. ").unwrap();
    assert_eq!(paths.namespace, "a_b_c/d");
    assert_eq!(paths.namespace_dir, "/data/a_b_c/d");
    let paths = StorePaths::new("/data/", "?|<>\"/ . x . ").unwrap();
    assert_eq!(paths.namespace, "_____/x");
    assert_eq!(paths.namespace_dir, "/data/_____/x");
    let paths = StorePaths::new("", "...a/b").unwrap();
    assert_eq!(paths.namespace_dir, "a/b");
    assert_eq!(paths.memories_path, "a/b/memories.jsonl");
    let paths = StorePaths::new("C:\\store", "u1/p1").unwrap();
    assert_eq!(paths.index_path, "C:\\store/u1/p1/index.json");
}

#[test]
fn the_engine_answers_a_recall_over_records_that_were_read_for_it() {
    let mut app = App::new("/tmp/root");
    for (slice, at) in [("one", "2025-01-01"), ("two", "2025-01-02")] {
        let mut call = remember_call("u1/p1", &["k"], slice);
        call.entries.push(Argument { key: "occurred_at".to_string(), value: word(at) });
        app.remember(RememberArgs::from_json(&call).unwrap()).unwrap();
    }
    let slot = app.open("u1/p1").unwrap();
    let log = app.logs.get("/tmp/root/u1/p1").unwrap().clone();
    let records: Vec<Option<MemoryItem>> = app
        .engine
        .state(slot)
        .index()
        .items
        .iter()
        .map(|item| {
            let from = item.offset as usize;
            decode(body(&log[from..from + item.length as usize]))
        })
        .collect();
    let args = RecallArgs::from_json(&arguments(vec![("namespace", word("u1/p1"))])).unwrap();
    let result = app.engine.recall(slot, args, &records).unwrap();
    let slices: Vec<&str> = result.items.iter().map(|i| i.slice.as_str()).collect();
    assert_eq!(slices, vec!["two", "one"]);
    assert_eq!(result.total, 2);
}
