use versioned_data_engine::crc::{checksum, crc32, crc_table};
use versioned_data_engine::entries::{
    entry_name, is_stale_temp, last_version, load, pick_entries, temp_name, version_from_name,
    write_entry, Dataset, Entry, Loaded,
};
use versioned_data_engine::frame::{frame, unframe, HEADER_LEN};
use versioned_data_engine::input::read_json;
use versioned_data_engine::json::Json;
use versioned_data_engine::sorted_map::SortedMap;

/// A directory: file names and contents.
type Dir = Vec<(String, Vec<u8>)>;

fn dataset_of(pairs: &[(&str, u64)]) -> Dataset {
    let mut d: Dataset = SortedMap::new();
    for (key, n) in pairs {
        let mut fields = SortedMap::new();
        fields.insert("n".to_owned(), Json::Number(n.to_string()));
        d.insert((*key).to_owned(), fields);
    }
    d
}

fn dataset_text(pairs: &[(&str, u64)]) -> String {
    let items: Vec<String> = pairs
        .iter()
        .map(|(key, n)| format!("\"{key}\":{{\"n\":{n}}}"))
        .collect();
    format!("{{{}}}", items.join(","))
}

fn payload_of(version: u64, pairs: &[(&str, u64)]) -> Vec<u8> {
    let text = dataset_text(pairs);
    format!("{{\"version\":{version},\"snapshot\":{text},\"dataset\":{text}}}").into_bytes()
}

fn save(dir: &mut Dir, version: u64, pairs: &[(&str, u64)]) {
    let put = write_entry(version, &payload_of(version, pairs), 7, 0);
    assert_eq!(put.temp, temp_name(version, 7, 0));
    dir.retain(|(name, _)| *name != put.name);
    dir.push((put.name, put.bytes));
}

fn members(j: &Json) -> Option<&SortedMap<Json>> {
    match j {
        Json::Object(m) => Some(m),
        _ => None,
    }
}

fn dataset_in(j: &Json) -> Option<Dataset> {
    let mut d: Dataset = SortedMap::new();
    for (key, fields) in &members(j)?.entries {
        let mut copy = SortedMap::new();
        for (k, v) in &members(fields)?.entries {
            copy.insert(k.clone(), v.copy());
        }
        d.insert(key.clone(), copy);
    }
    Some(d)
}

fn entry_in(payload: &[u8]) -> Option<Entry> {
    let j = read_json(payload)?;
    let m = members(&j)?;
    let version = match m.get("version")? {
        Json::Number(s) => s.parse().ok()?,
        _ => return None,
    };
    Some(Entry {
        version,
        snapshot: dataset_in(m.get("snapshot")?)?,
        dataset: dataset_in(m.get("dataset")?)?,
    })
}

fn load_dir(dir: &mut Dir) -> Loaded {
    dir.retain(|(name, _)| !is_stale_temp(name));
    let names: Vec<String> = dir.iter().map(|(name, _)| name.clone()).collect();
    let picked = pick_entries(&names);
    let found: Vec<(u64, Option<Entry>)> = picked
        .entries
        .iter()
        .map(|(name, version)| {
            let bytes = &dir.iter().find(|(n, _)| n == name).unwrap().1;
            (*version, unframe(bytes).and_then(entry_in))
        })
        .collect();
    assert!(last_version(&found) != Some(u64::MAX));
    load(found)
}

fn number_at(d: &Dataset, key: &str) -> String {
    match d.get(key).unwrap().get("n").unwrap() {
        Json::Number(s) => s.clone(),
        _ => panic!("no number"),
    }
}

#[test]
fn fresh_dir_starts_at_version_one() {
    let mut dir: Dir = Vec::new();
    let loaded = load_dir(&mut dir);
    assert_eq!(loaded.next_version, 1);
    assert!(loaded.snapshots.is_empty());
    assert!(loaded.dataset.entries.is_empty());
}

#[test]
fn frame_roundtrip_and_corruption() {
    let payload = b"{\"version\":1,\"x\":true}";
    let framed = frame(payload);
    assert_eq!(unframe(&framed).unwrap(), payload);

    assert!(unframe(&framed[..framed.len() - 3]).is_none());
    let mut extra = framed.clone();
    extra.push(0);
    assert!(unframe(&extra).is_none());
    let mut flipped = framed.clone();
    flipped[HEADER_LEN + 2] ^= 0xff;
    assert!(unframe(&flipped).is_none());
    let mut bad_magic = framed.clone();
    bad_magic[0] = b'X';
    assert!(unframe(&bad_magic).is_none());
}

#[test]
fn restart_recovers_entries_and_continues_version() {
    let mut dir: Dir = Vec::new();
    save(&mut dir, 1, &[("alpha", 1)]);
    save(&mut dir, 2, &[("alpha", 1), ("bravo", 2)]);

    let loaded = load_dir(&mut dir);
    assert_eq!(loaded.next_version, 3);
    assert_eq!(loaded.snapshots.len(), 2);
    assert_eq!(loaded.snapshots[0].version, 1);
    assert_eq!(loaded.snapshots[1].version, 2);
    assert_eq!(number_at(&loaded.dataset, "bravo"), "2");
    assert_eq!(loaded.snapshots[0].records.len(), 1);
    assert!(loaded.snapshots[1].records.get("alpha").is_some());
}

#[test]
fn corrupt_middle_entry_skipped_but_later_entries_recover() {
    let mut dir: Dir = Vec::new();
    save(&mut dir, 1, &[("alpha", 1)]);
    save(&mut dir, 2, &[("alpha", 2)]);
    save(&mut dir, 3, &[("alpha", 3)]);
    let v2 = dir.iter_mut().find(|(n, _)| *n == entry_name(2)).unwrap();
    v2.1[HEADER_LEN + 5] ^= 0x01;

    let loaded = load_dir(&mut dir);
    let versions: Vec<u64> = loaded.snapshots.iter().map(|s| s.version).collect();
    assert_eq!(versions, vec![1, 3]);
    assert_eq!(loaded.next_version, 4);
    assert_eq!(number_at(&loaded.dataset, "alpha"), "3");

    let mut dir2: Dir = Vec::new();
    save(&mut dir2, 1, &[("k", 1)]);
    save(&mut dir2, 2, &[("k", 2)]);
    save(&mut dir2, 3, &[("k", 3)]);
    let v3 = dir2.iter_mut().find(|(n, _)| *n == entry_name(3)).unwrap();
    v3.1.truncate(HEADER_LEN + 4);
    let loaded2 = load_dir(&mut dir2);
    let versions: Vec<u64> = loaded2.snapshots.iter().map(|s| s.version).collect();
    assert_eq!(versions, vec![1, 2]);
    assert_eq!(loaded2.next_version, 3);
}

#[test]
fn stale_temp_files_are_removed_and_never_commit() {
    let mut dir: Dir = Vec::new();
    save(&mut dir, 1, &[("alpha", 1)]);
    let tmp = temp_name(2, 7, 999);
    assert_eq!(tmp, format!(".{}.tmp-{}-{}", entry_name(2), 7, 999));
    dir.push((tmp.clone(), frame(&payload_of(2, &[("alpha", 9)]))));

    let loaded = load_dir(&mut dir);
    assert_eq!(loaded.snapshots.len(), 1);
    assert_eq!(loaded.next_version, 2);
    assert!(!dir.iter().any(|(name, _)| *name == tmp));
}

#[test]
fn entries_of_strange_versions_are_passed_over() {
    let some = |version: u64| {
        Some(Entry {
            version,
            snapshot: dataset_of(&[("k", version)]),
            dataset: dataset_of(&[("k", version)]),
        })
    };
    let found = vec![
        (0u64, some(0)),
        (1, some(1)),
        (2, some(5)),
        (3, None),
        (4, some(4)),
        (4, some(4)),
        (2, some(2)),
    ];
    assert_eq!(last_version(&found), Some(4));
    let loaded = load(found);
    let versions: Vec<u64> = loaded.snapshots.iter().map(|s| s.version).collect();
    assert_eq!(versions, vec![1, 4]);
    assert_eq!(loaded.next_version, 5);
    assert_eq!(number_at(&loaded.dataset, "k"), "4");
}

#[test]
fn entry_names_are_strict() {
    assert_eq!(entry_name(1), "00000000000000000001.vde");
    assert_eq!(entry_name(u64::MAX), "18446744073709551615.vde");
    assert_eq!(version_from_name("00000000000000000042.vde"), Some(42));
    assert_eq!(version_from_name("18446744073709551615.vde"), Some(u64::MAX));
    for bad in [
        "",
        "1.vde",
        "18446744073709551616.vde",
        "0000000000000000001x.vde",
        "00000000000000000001.vdf",
        "000000000000000000001.vde",
        "000000000000000001\u{e9}.vde",
        "+0000000000000000001.vde",
    ] {
        assert_eq!(version_from_name(bad), None);
    }
    assert!(entry_name(9) < entry_name(10));
    assert!(entry_name(999) < entry_name(1000));
    assert!(is_stale_temp(".x.vde.tmp-"));
    assert!(!is_stale_temp("x.vde.tmp-1"));
    assert!(!is_stale_temp(".x.vde.tm"));
}

#[test]
fn frame_is_laid_out_as_documented() {
    let framed = frame(b"abc");
    assert_eq!(
        String::from_utf8(framed).unwrap(),
        "VDE1\n00000000000000000003\nabc\n352441c2\nVDE-END-1\n"
    );
}

#[test]
fn every_wrong_byte_makes_a_frame_none() {
    let framed = frame(b"abc");
    for other in ["352441C2", "+52441c2", "352441c3"] {
        let respelled = String::from_utf8(framed.clone())
            .unwrap()
            .replace("352441c2", other)
            .into_bytes();
        assert_eq!(unframe(&respelled), None);
    }
    assert_eq!(
        unframe(b"VDE1\n00000000000000000009\n123456789\ncbf43926\nVDE-END-1\n").unwrap(),
        b"123456789"
    );
    assert_eq!(
        unframe(b"VDE1\n00000000000000000009\n123456789\nCBF43926\nVDE-END-1\n"),
        None
    );
    for i in 0..framed.len() {
        for flip in [0x01u8, 0x20, 0x80] {
            let mut damaged = framed.clone();
            damaged[i] ^= flip;
            assert_eq!(unframe(&damaged), None);
        }
    }
    for k in 0..framed.len() {
        assert!(unframe(&framed[..k]).is_none());
    }
}

#[test]
fn checksum_is_that_of_ieee() {
    assert_eq!(crc32(b""), 0);
    assert_eq!(crc32(b"123456789"), 0xcbf43926);
    assert_eq!(checksum(b"123456789"), 0xcbf43926);
    assert_eq!(checksum(b"abc"), 0x352441c2);
    assert_eq!(crc_table()[1], 0x77073096);
    assert_eq!(crc_table()[255], 0x2d02ef8d);
}
