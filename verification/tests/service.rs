use versioned_data_engine::collections::{
    diff_snapshots, get_snapshot, list_snapshots, post_snapshot, put_records, ApiError, Store,
};
use versioned_data_engine::dataset;
use versioned_data_engine::dataset::DataStore;
use versioned_data_engine::entries::Dataset;
use versioned_data_engine::event::{
    decode_event, encode_event, event_name, io_err, is_tmp, lock_failure, numbered_files,
    parse_numbered, temp_name, OpenError,
};
use versioned_data_engine::input::read_json;
use versioned_data_engine::journal::{reopen, Persist};
use versioned_data_engine::json::Json;
use versioned_data_engine::persist::{replay, DiskRecord, EventPayload, Events};
use versioned_data_engine::pointer::{canonical_pointer, escape_segment, parse_pointer};
use versioned_data_engine::sorted_map::SortedMap;
use versioned_data_engine::value::json_eq;

fn parse(text: &str) -> Json {
    read_json(text.as_bytes()).unwrap()
}

fn put(store: &mut Store, body: &str) -> Result<usize, ApiError> {
    put_records(store, "c".to_owned(), body.as_bytes())
}

#[test]
fn batches_are_written_whole_or_not_at_all() {
    let mut store = Store::new();
    for bad in [
        "",
        "{",
        "[]",
        "{}",
        r#"{"records":1}"#,
        r#"{"records":[1]}"#,
        r#"{"records":[{"data":{}}]}"#,
        r#"{"records":[{"id":"","data":{}}]}"#,
        r#"{"records":[{"id":1,"data":{}}]}"#,
        r#"{"records":[{"id":"a"}]}"#,
        r#"{"records":[{"id":"a","data":[]}]}"#,
        r#"{"records":[{"id":"a","data":{}},{"id":"a","data":{}}]}"#,
        r#"{"records":[{"id":"a","data":{}},{"id":"b","data":null}]}"#,
    ] {
        let err = put(&mut store, bad).unwrap_err();
        assert_eq!(err.code(), "invalid_records");
        assert_eq!(err.status(), 400);
        assert!(store.collections.entries.is_empty());
    }
    assert_eq!(put(&mut store, r#"{"records":[]}"#).unwrap(), 0);
    assert_eq!(store.collections.len(), 1);
    let body = r#"{"records":[{"id":"b","data":{"n":1}},{"id":"a","data":{}}],"more":1}"#;
    assert_eq!(put(&mut store, body).unwrap(), 2);
    assert_eq!(put(&mut store, r#"{"records":[{"id":"b","data":{"n":2}}]}"#).unwrap(), 1);
    assert_eq!(post_snapshot(&mut store, "c".to_owned()), 1);
    let records = get_snapshot(&store, "c", 1).unwrap();
    assert_eq!(records.len(), 2);
    assert_eq!(records[0].id, "a");
    assert_eq!(records[1].id, "b");
    assert!(records[1].data.same(&parse(r#"{"n":2}"#)));
}

#[test]
fn snapshots_are_frozen_and_numbered_from_one() {
    let mut store = Store::new();
    assert_eq!(post_snapshot(&mut store, "c".to_owned()), 1);
    put(&mut store, r#"{"records":[{"id":"x","data":{"n":1}}]}"#).unwrap();
    assert_eq!(post_snapshot(&mut store, "c".to_owned()), 2);
    put(&mut store, r#"{"records":[{"id":"x","data":{"n":2}},{"id":"y","data":{}}]}"#).unwrap();
    assert_eq!(post_snapshot(&mut store, "c".to_owned()), 3);
    assert_eq!(post_snapshot(&mut store, "d".to_owned()), 1);
    let versions: Vec<(usize, usize)> = list_snapshots(&store, "c")
        .iter()
        .map(|v| (v.version, v.record_count))
        .collect();
    assert_eq!(versions, vec![(1, 0), (2, 1), (3, 2)]);
    assert!(list_snapshots(&store, "none").is_empty());
    assert!(get_snapshot(&store, "c", 2).unwrap()[0].data.same(&parse(r#"{"n":1}"#)));
    for (name, version) in [("c", 0), ("c", 4), ("none", 1)] {
        let err = get_snapshot(&store, name, version).unwrap_err();
        assert_eq!((err.code(), err.status()), ("snapshot_not_found", 404));
    }
}

#[test]
fn snapshot_differences_are_told_by_id() {
    let mut store = Store::new();
    put(
        &mut store,
        r#"{"records":[{"id":"keep","data":{"n":1}},{"id":"x","data":{"n":1}},{"id":"w","data":{}}]}"#,
    )
    .unwrap();
    post_snapshot(&mut store, "c".to_owned());
    put(
        &mut store,
        r#"{"records":[{"id":"x","data":{"n":1.0}},{"id":"b","data":{}},{"id":"a","data":{}}]}"#,
    )
    .unwrap();
    post_snapshot(&mut store, "c".to_owned());
    let d = diff_snapshots(&store, "c", 1, 2).unwrap();
    assert_eq!((d.from, d.to), (1, 2));
    assert_eq!(d.added, vec!["a", "b"]);
    assert!(d.removed.is_empty());
    assert_eq!(d.changed, vec!["x"]);
    let same = diff_snapshots(&store, "c", 2, 2).unwrap();
    assert!(same.added.is_empty() && same.removed.is_empty() && same.changed.is_empty());
    let err = diff_snapshots(&store, "c", 2, 1).unwrap_err();
    assert_eq!((err.code(), err.status()), ("invalid_snapshot_range", 400));
    let err = diff_snapshots(&store, "none", 2, 1).unwrap_err();
    assert_eq!(err.code(), "invalid_snapshot_range");
    let err = diff_snapshots(&store, "c", 1, 3).unwrap_err();
    assert_eq!(err.code(), "snapshot_not_found");
    let err = diff_snapshots(&store, "c", 0, 1).unwrap_err();
    assert_eq!(err.code(), "snapshot_not_found");
}

#[test]
fn snapshots_stay_through_a_run_of_steps() {
    let mut store = Store::new();
    put(&mut store, r#"{"records":[{"id":"x","data":{"n":1}}]}"#).unwrap();
    assert_eq!(post_snapshot(&mut store, "c".to_owned()), 1);
    for i in 2..6 {
        put(
            &mut store,
            &format!(r#"{{"records":[{{"id":"x","data":{{"n":{i}}}}}]}}"#),
        )
        .unwrap();
        assert_eq!(post_snapshot(&mut store, "d".to_owned()), i - 1);
        assert_eq!(post_snapshot(&mut store, "c".to_owned()), i);
        for version in 1..=i {
            let records = get_snapshot(&store, "c", version).unwrap();
            assert_eq!(records.len(), 1);
            assert!(records[0].data.same(&parse(&format!(r#"{{"n":{version}}}"#))));
        }
    }
    assert!(get_snapshot(&store, "d", 4).unwrap().is_empty());
}

fn record(key: &str, fields: &str) -> DiskRecord {
    DiskRecord {
        key: key.to_owned(),
        fields: parse(fields),
    }
}

fn write_event(seq: u64, records: Vec<DiskRecord>) -> EventPayload {
    EventPayload::Write { seq, records }
}

fn snapshot_event(version: u64, last_seq: u64, records: Vec<DiskRecord>) -> EventPayload {
    EventPayload::Snapshot {
        version,
        last_seq,
        records,
    }
}

fn damage(e: OpenError) -> String {
    match e {
        OpenError::Corrupt(m) => m,
        _ => panic!("not damage"),
    }
}

#[test]
fn event_files_are_laid_out_as_documented() {
    let bytes = encode_event(b"abc");
    assert_eq!(bytes, b"VDE1 3 352441c2\nabc");
    assert_eq!(decode_event(&bytes, "f").unwrap(), b"abc");
    assert_eq!(decode_event(b"VDE1 3 352441C2\nabc", "f").unwrap(), b"abc");
    assert_eq!(decode_event(b"VDE1 +3 352441c2\nabc", "f").unwrap(), b"abc");
    let cases: [(&[u8], &str); 18] = [
        (b"", "f 缺少文件头"),
        (b"VDE1 3 352441c2", "f 缺少文件头"),
        (b"\xff\nabc", "f 文件头不是合法 UTF-8"),
        (b"\nabc", "f 文件头长度字段非法"),
        (b"VDE1 x 352441c2\nabc", "f 文件头长度字段非法"),
        (b"VDE1  352441c2\nabc", "f 文件头长度字段非法"),
        (b"VDE1 ++3 352441c2\nabc", "f 文件头长度字段非法"),
        (b"VDE1 + 352441c2\nabc", "f 文件头长度字段非法"),
        (b"VDE1 -3 352441c2\nabc", "f 文件头长度字段非法"),
        (b"VDE1 3 +52441c2\nabc", "f 文件头校验和字段非法"),
        (b"VDE1 3 352441c\nabc", "f 文件头校验和字段非法"),
        (b"VDE1 3 0352441c2\nabc", "f 文件头校验和字段非法"),
        (b"VDE1 3\nabc", "f 文件头校验和字段非法"),
        (b"VDE1 3 123456789\nabc", "f 文件头校验和字段非法"),
        (b"VDE2 3 352441c2\nabc", "f 文件头无法识别"),
        (b"VDE1 3 352441c2 \nabc", "f 文件头无法识别"),
        (b"VDE1 3 352441c2\nabcd", "f 声明长度 3 但实际为 4"),
        (b"VDE1 3 352441c2\nabd", "f CRC32 校验失败，文件可能已损坏或被截断"),
    ];
    for (bytes, message) in cases {
        assert_eq!(damage(decode_event(bytes, "f").unwrap_err()), message);
    }
}

#[test]
fn event_names_are_strict() {
    assert_eq!(event_name(7), "00000000000000000007.json");
    assert_eq!(parse_numbered("00000000000000000007.json"), Some(7));
    assert_eq!(parse_numbered("7.json"), None);
    assert_eq!(parse_numbered("18446744073709551616.json"), None);
    assert_eq!(parse_numbered("0000000000000000000a.json"), None);
    assert_eq!(temp_name(12, 3), ".tmp.12.3");
    assert!(is_tmp(".tmp.12.3"));
    assert!(!is_tmp("tmp.12.3"));
    let names = vec![event_name(2), event_name(1)];
    assert_eq!(numbered_files("d", &names).unwrap(), vec![2, 1]);
    let names = vec![event_name(2), "x".to_owned()];
    assert_eq!(
        damage(numbered_files("d", &names).unwrap_err()),
        "目录 d 中存在无法识别的数据文件 x"
    );
}

#[test]
fn open_errors_tell_what_happened() {
    assert_eq!(
        lock_failure("r", "r/lock", Some(11), "busy").message(),
        "持久化目录 r 已被另一个运行中的服务实例占用；多个进程不能共用同一持久化目录"
    );
    assert!(matches!(
        lock_failure("r", "r/lock", Some(35), "busy"),
        OpenError::Locked { .. }
    ));
    assert_eq!(
        lock_failure("r", "r/lock", Some(1), "no").message(),
        "无法访问持久化目录: 对 r/lock 加锁失败: no"
    );
    assert_eq!(io_err("读取目录 d", "no").message(), "无法访问持久化目录: 读取目录 d: no");
    assert_eq!(
        OpenError::Corrupt("x".to_owned()).message(),
        "持久化数据损坏或无法解析，拒绝启动: x"
    );
}

#[test]
fn events_are_checked_when_they_are_read() {
    let cases = [
        (snapshot_event(1, 0, vec![]), "p 不是写入事件文件"),
        (write_event(2, vec![record("a", "{}")]), "p 内的序号 2 与文件名序号 1 不一致"),
        (write_event(1, vec![]), "p 是空批次事件，协议不允许"),
        (write_event(1, vec![record("a", "[]")]), "p 中键 a 的 fields 不是 JSON 对象"),
        (
            write_event(1, vec![record("a", "{}"), record("b", "{}"), record("a", "{}")]),
            "p 内出现同批次重复键 a",
        ),
    ];
    for (event, message) in cases {
        let mut events = Events::new();
        assert_eq!(damage(events.admit_write(1, event, "p").unwrap_err()), message);
        assert!(events.writes.is_empty());
    }
    let cases = [
        (write_event(1, vec![record("a", "{}")]), "p 不是快照文件"),
        (snapshot_event(3, 0, vec![]), "p 内的版本号 3 与文件名版本号 1 不一致"),
        (snapshot_event(1, 0, vec![record("a", "1")]), "p 中键 a 的 fields 不是 JSON 对象"),
    ];
    for (event, message) in cases {
        let mut events = Events::new();
        assert_eq!(damage(events.admit_snapshot(1, event, "p").unwrap_err()), message);
        assert!(events.snapshots.is_empty());
    }
}

fn log(writes: Vec<(u64, Vec<DiskRecord>)>, snapshots: Vec<(u64, u64, Vec<DiskRecord>)>) -> Events {
    let mut events = Events::new();
    for (seq, records) in writes {
        events.admit_write(seq, write_event(seq, records), "p").unwrap();
    }
    for (version, last_seq, records) in snapshots {
        let event = snapshot_event(version, last_seq, records);
        events.admit_snapshot(version, event, "p").unwrap();
    }
    events
}

#[test]
fn replay_reports_what_does_not_fit() {
    let a = |n: &str| vec![record("a", &format!("{{\"n\":{n}}}"))];
    let cases = [
        (
            log(vec![(1, a("1")), (3, a("2"))], vec![]),
            "写入事件 2 缺失，事件序列不连续（最后序号 3）",
        ),
        (
            log(vec![(1, a("1"))], vec![(2, 1, a("1"))]),
            "快照版本 1 缺失，版本序列不连续（最后版本 2）",
        ),
        (
            log(vec![(1, a("1"))], vec![(1, 2, a("1"))]),
            "快照版本 1 的 last_seq=2 越界或回退",
        ),
        (
            log(vec![(1, a("1"))], vec![(1, 1, a("1")), (2, 0, vec![])]),
            "快照版本 2 的 last_seq=0 越界或回退",
        ),
        (
            log(
                vec![(1, a("1"))],
                vec![(1, 1, vec![record("a", "{\"n\":1}"), record("a", "{\"n\":1}")])],
            ),
            "快照版本 1 中存在重复键 a",
        ),
        (
            log(vec![(1, a("1"))], vec![(1, 1, a("1.0"))]),
            "快照版本 1 的内容与事件重放结果不一致",
        ),
        (
            log(vec![], vec![(0, 0, vec![])]),
            "快照版本 0 非法，版本号从 1 开始",
        ),
        (
            log(vec![(0, a("1")), (1, a("2"))], vec![]),
            "写入事件序号 0 非法，序号从 1 开始",
        ),
    ];
    for (events, message) in cases {
        assert_eq!(damage(replay(&events).unwrap_err()), message);
    }
}

#[test]
fn a_new_directory_starts_with_nothing() {
    let (dataset, snapshots, log) = reopen(&Events::new()).unwrap();
    assert_eq!(dataset.len(), 0);
    assert!(snapshots.is_empty());
    assert_eq!((log.next_seq, log.tmp_counter), (1, 0));
}

fn batch_of(text: &str) -> Vec<(String, SortedMap<Json>)> {
    dataset::parse_batch(&parse(text)).unwrap()
}

#[test]
fn what_was_committed_is_restored() {
    let mut store = DataStore::new();
    let mut log = Persist::resume(0);
    let mut events = Events::new();
    let bodies = [
        r#"{"records":[{"key":"b","fields":{"n":1}},{"key":"a","fields":{}}]}"#,
        r#"{"records":[{"key":"b","fields":{"n":2.50}}]}"#,
        r#"{"records":[{"key":"c","fields":{"d":[1,{"e":null}]}}]}"#,
    ];
    for (i, body) in bodies.iter().enumerate() {
        let batch = batch_of(body);
        let put = log.commit_writes(&batch, 9);
        assert_eq!(put.name, event_name(i as u64 + 1));
        events.admit_write(i as u64 + 1, put.event, &put.name).unwrap();
        log.writes_committed();
        dataset::write_batch(&mut store, &batch);
        if i != 1 {
            let version = dataset::next_version(&store);
            let put = log.commit_snapshot(version, &store.records, 9);
            assert_eq!(put.name, event_name(version));
            events.admit_snapshot(version, put.event, &put.name).unwrap();
            assert_eq!(dataset::save_version(&mut store).version, version);
        }
    }
    assert_eq!((log.next_seq, log.tmp_counter), (4, 5));
    let (_, _, last_seq): (Dataset, _, u64) = replay(&events).unwrap();
    assert_eq!(last_seq, 3);
    let (restored, snapshots, next): (Dataset, _, Persist) = reopen(&events).unwrap();
    assert_eq!((next.next_seq, next.tmp_counter), (4, 0));
    let again = DataStore::restore(restored, snapshots);
    assert_eq!(again.snapshots.len(), 2);
    assert_eq!(dataset::next_version(&again), 3);
    assert_eq!(again.records.len(), store.records.len());
    for ((k, v), (l, w)) in again.records.entries.iter().zip(store.records.entries.iter()) {
        assert_eq!(k, l);
        assert!(v.same(w));
    }
    for (s, t) in again.snapshots.iter().zip(store.snapshots.iter()) {
        assert_eq!(s.version, t.version);
        assert_eq!(s.records.len(), t.records.len());
        for ((k, v), (l, w)) in s.records.entries.iter().zip(t.records.entries.iter()) {
            assert_eq!(k, l);
            assert!(v.same(w));
        }
    }
    assert!(again.snapshots[0].records.get("b").unwrap().same(&parse(r#"{"n":1}"#)));
}

#[test]
fn dataset_batches_are_checked() {
    let cases = [
        ("{", 400, None, "请求体必须是含有 records 数组的 JSON 对象"),
        ("[]", 400, None, "请求体必须是含有 records 数组的 JSON 对象"),
        (r#"{"records":{}}"#, 400, None, "请求体必须是含有 records 数组的 JSON 对象"),
        (r#"{"records":[]}"#, 400, None, "批次不能为空"),
        (r#"{"records":[1]}"#, 400, Some(0), "记录必须是 JSON 对象"),
        (r#"{"records":[{"fields":{}}]}"#, 400, Some(0), "记录缺少字符串键 key"),
        (
            r#"{"records":[{"key":"a","fields":{}},{"key":1,"fields":{}}]}"#,
            400,
            Some(1),
            "记录缺少字符串键 key",
        ),
        (
            r#"{"records":[{"key":"a","fields":[]}]}"#,
            400,
            Some(0),
            "记录的 fields 必须是 JSON 对象",
        ),
        (
            r#"{"records":[{"key":"alpha","fields":{"n":1}},{"key":"alpha","fields":{"n":2}}]}"#,
            409,
            Some(1),
            "批次内出现重复键: alpha",
        ),
    ];
    for (body, status, index, message) in cases {
        let err = dataset::read_request(body.as_bytes()).unwrap_err();
        assert_eq!(err.status(), status);
        assert_eq!(err.index(), index);
        assert_eq!(err.message(), message);
    }
}

#[test]
fn dataset_versions_are_saved_and_read() {
    let mut store = DataStore::new();
    let body = r#"{"records":[{"key":"bravo","fields":{"n":2}},{"key":"alpha","fields":{"n":1}}]}"#;
    let batch = dataset::read_request(body.as_bytes()).unwrap();
    let done = dataset::write_batch(&mut store, &batch);
    assert_eq!((done.written, done.total), (2, 2));
    let saved = dataset::save_version(&mut store);
    assert_eq!((saved.version, saved.total), (1, 2));
    let done = dataset::write_batch(
        &mut store,
        &batch_of(r#"{"records":[{"key":"alpha","fields":{"n":9}}]}"#),
    );
    assert_eq!((done.written, done.total), (1, 2));
    let s = dataset::read_snapshot(&store, Some("1")).unwrap();
    let keys: Vec<&str> = s.records.entries.iter().map(|(k, _)| k.as_str()).collect();
    assert_eq!(keys, vec!["alpha", "bravo"]);
    let fields = dataset::read_record(&store, Some("1"), "alpha").unwrap();
    assert!(fields.same(&parse(r#"{"n":1}"#)));
    let err = dataset::read_snapshot(&store, Some("9")).unwrap_err();
    assert_eq!((err.status(), err.message().as_str()), (404, "版本 9 不存在或尚未保存"));
    let huge = "99999999999999999999999";
    assert_eq!(dataset::read_snapshot(&store, Some(huge)).unwrap_err().status(), 404);
    let err = dataset::read_record(&store, Some("1"), "charlie").unwrap_err();
    assert_eq!((err.status(), err.message().as_str()), (404, "版本 1 中不存在键: charlie"));
    for bad in [None, Some(""), Some("0"), Some("-1"), Some("1.0"), Some("x")] {
        let err = dataset::read_snapshot(&store, bad).unwrap_err();
        assert_eq!((err.status(), err.message().as_str()), (400, "version 必须是正整数"));
    }
    assert_eq!(store.snapshots.len(), 1);
    let mut empty = DataStore::new();
    let saved = dataset::save_version(&mut empty);
    assert_eq!((saved.version, saved.total), (1, 0));
}

#[test]
fn pointers_are_escaped_and_read_back() {
    assert_eq!(escape_segment("a/b~c"), "a~1b~0c");
    assert_eq!(canonical_pointer(&["".to_owned(), "~1".to_owned()]), "//~01");
    assert_eq!(parse_pointer("//~01").unwrap(), vec!["", "~1"]);
    assert_eq!(parse_pointer("/").unwrap(), vec![""]);
    for bad in ["", "a", "/~", "/~2", "/a~"] {
        assert!(parse_pointer(bad).is_none());
    }
}

#[test]
fn values_are_equal_by_what_numbers_stand_for() {
    let pairs = [
        (r#"{"a":1,"b":[1e2]}"#, r#"{"b":[100],"a":1.0}"#, true),
        ("1e400", "10e399", true),
        ("0.1", "0.10", true),
        ("-0", "0", true),
        ("1", "\"1\"", false),
        ("[1]", "[1,1]", false),
        (r#"{"a":null}"#, "{}", false),
        ("true", "false", false),
    ];
    for (a, b, same) in pairs {
        assert_eq!(json_eq(&parse(a), &parse(b)), same);
    }
    assert!(!parse("1").same(&parse("1.0")));
}

#[test]
fn json_text_is_read_with_numbers_as_written() {
    let j = parse(r#" {"b":[1.50,null,true,"x"],"a":-0e1} "#);
    match &j {
        Json::Object(m) => {
            assert_eq!(m.entries[0].0, "a");
            assert!(matches!(&m.entries[0].1, Json::Number(s) if s == "-0e1"));
            match &m.entries[1].1 {
                Json::Array(v) => {
                    assert!(matches!(&v[0], Json::Number(s) if s == "1.50"));
                    assert!(matches!(&v[1], Json::Null));
                    assert!(matches!(&v[2], Json::Bool(true)));
                    assert!(matches!(&v[3], Json::String(s) if s == "x"));
                }
                _ => panic!("no list"),
            }
        }
        _ => panic!("no object"),
    }
    assert!(read_json(b"[1,]").is_none());
    assert!(read_json(b"\xff").is_none());
    assert!(read_json(b"1 2").is_none());
}
