//! The log of a data directory: write events and snapshot events, their checks,
//! and the state that they stand for.
use vstd::prelude::*;

use std::collections::BTreeMap;

use crate::change;
use crate::entries;
use crate::entries::Dataset;
use crate::event::{corrupt, OpenError, Trouble};
use crate::fault::join;
use crate::first;
use crate::json;
use crate::json::{same_map, Json};
use crate::numeral;
use crate::numeral::decimal;
use crate::rows;
use crate::rows::{Batch, Rows};
use crate::sorted_map;
use crate::sorted_map::{reversed, SortedMap};
use crate::text::text_eq;
use crate::tree::Tree;
use crate::value::as_object;

verus! {

/// A record in an event.
#[derive(Debug)]
pub struct DiskRecord {
    pub key: String,
    pub fields: Json,
}

/// What an event file holds.
#[derive(Debug)]
pub enum EventPayload {
    Write { seq: u64, records: Vec<DiskRecord> },
    Snapshot { version: u64, last_seq: u64, records: Vec<DiskRecord> },
}

/// A saved version.
#[derive(Debug)]
pub struct Snapshot {
    pub version: u64,
    pub records: SortedMap<Json>,
}

/// What an event holds, as a mathematical value.
pub enum EventDoc {
    Write { seq: nat, records: Batch },
    Snapshot { version: nat, last_seq: nat, records: Batch },
}

/// The keys and fields of a list of records.
pub open spec fn record_docs(v: Seq<DiskRecord>) -> Batch {
    Seq::new(v.len(), |i: int| (v[i].key@, v[i].fields@))
}

/// Whether all fields are in order.
pub open spec fn records_wf(v: Seq<DiskRecord>) -> bool {
    forall|i: int| 0 <= i < v.len() ==> json::json_wf((#[trigger] v[i]).fields)
}

/// Whether all fields are objects.
pub open spec fn all_objects(b: Batch) -> bool {
    forall|i: int| 0 <= i < b.len() ==> (#[trigger] b[i]).1 is Object
}

impl View for EventPayload {
    type V = EventDoc;

    open spec fn view(&self) -> EventDoc {
        match self {
            EventPayload::Write { seq, records } => EventDoc::Write {
                seq: *seq as nat,
                records: record_docs(records@),
            },
            EventPayload::Snapshot { version, last_seq, records } => EventDoc::Snapshot {
                version: *version as nat,
                last_seq: *last_seq as nat,
                records: record_docs(records@),
            },
        }
    }
}

impl EventPayload {
    /// All fields are in order.
    pub open spec fn wf(&self) -> bool {
        match self {
            EventPayload::Write { records, .. } => records_wf(records@),
            EventPayload::Snapshot { records, .. } => records_wf(records@),
        }
    }
}

/// What is wrong with a record whose fields are no object.
pub open spec fn record_fault(b: Batch, i: int, path: Seq<char>) -> Option<Seq<char>> {
    if b[i].1 is Object {
        None
    } else {
        Some(path + " 中键 "@ + b[i].0 + " 的 fields 不是 JSON 对象"@)
    }
}

/// Looks for records whose fields are no objects.
pub open spec fn record_faults(b: Batch, path: Seq<char>) -> spec_fn(nat) -> Option<Seq<char>> {
    |i: nat| record_fault(b, i as int, path)
}

/// Looks for records whose fields are no objects, or whose keys stood before.
pub open spec fn batch_faults(b: Batch, path: Seq<char>) -> spec_fn(nat) -> Option<Seq<char>> {
    |i: nat|
        match record_fault(b, i as int, path) {
            Some(m) => Some(m),
            None => if rows::ids_of(b).take(i as int).contains(b[i as int].0) {
                Some(path + " 内出现同批次重复键 "@ + b[i as int].0)
            } else {
                None
            },
        }
}

/// What is wrong with the event in a file for writes, if anything is.
pub open spec fn write_fault(seq: nat, e: EventDoc, path: Seq<char>) -> Option<Seq<char>> {
    match e {
        EventDoc::Snapshot { .. } => Some(path + " 不是写入事件文件"@),
        EventDoc::Write { seq: stated, records } => if stated != seq {
            Some(
                path + " 内的序号 "@ + numeral::dec_text(stated) + " 与文件名序号 "@
                    + numeral::dec_text(seq) + " 不一致"@,
            )
        } else if records.len() == 0 {
            Some(path + " 是空批次事件，协议不允许"@)
        } else {
            first::first_some(records.len(), batch_faults(records, path))
        },
    }
}

/// What is wrong with the event in a file for snapshots, if anything is.
pub open spec fn snapshot_fault(version: nat, e: EventDoc, path: Seq<char>) -> Option<Seq<char>> {
    match e {
        EventDoc::Write { .. } => Some(path + " 不是快照文件"@),
        EventDoc::Snapshot { version: stated, records, .. } => if stated != version {
            Some(
                path + " 内的版本号 "@ + numeral::dec_text(stated) + " 与文件名版本号 "@
                    + numeral::dec_text(version) + " 不一致"@,
            )
        } else {
            first::first_some(records.len(), record_faults(records, path))
        },
    }
}

/// Checks that the fields of a record are an object.
pub fn validate_record(record: &DiskRecord, path: &str) -> (r: Result<(), OpenError>)
    requires
        json::json_wf(record.fields),
    ensures
        match r {
            Ok(_) => record.fields@ is Object,
            Err(e) => !(record.fields@ is Object) && e@ == Trouble::Corrupt(
                path@ + " 中键 "@ + record.key@ + " 的 fields 不是 JSON 对象"@,
            ),
        },
{
    if as_object(&record.fields).is_some() {
        Ok(())
    } else {
        let place = join(join(path, " 中键 ").as_str(), record.key.as_str());
        Err(corrupt(place.as_str(), " 的 fields 不是 JSON 对象"))
    }
}

/// Checks the event in a file for writes and takes its records.
pub fn load_write(seq: u64, payload: EventPayload, path: &str) -> (r: Result<
    Vec<DiskRecord>,
    OpenError,
>)
    requires
        payload.wf(),
    ensures
        match r {
            Ok(v) => {
                &&& write_fault(seq as nat, payload@, path@) is None
                &&& payload@ == (EventDoc::Write { seq: seq as nat, records: record_docs(v@) })
                &&& records_wf(v@)
                &&& all_objects(record_docs(v@))
                &&& v@.len() > 0
            },
            Err(e) => e@ is Corrupt && write_fault(seq as nat, payload@, path@) == Some(
                e@->Corrupt_0,
            ),
        },
{
    let (stated, records) = match payload {
        EventPayload::Write { seq, records } => (seq, records),
        EventPayload::Snapshot { .. } => {
            return Err(corrupt(path, " 不是写入事件文件"));
        },
    };
    if stated != seq {
        let place = join(join(path, " 内的序号 ").as_str(), decimal(stated).as_str());
        let place = join(join(place.as_str(), " 与文件名序号 ").as_str(), decimal(seq).as_str());
        return Err(corrupt(place.as_str(), " 不一致"));
    }
    if records.len() == 0 {
        return Err(corrupt(path, " 是空批次事件，协议不允许"));
    }
    let ghost b = record_docs(records@);
    let ghost f = batch_faults(b, path@);
    let ghost ids = rows::ids_of(b);
    for i in 0..records.len()
        invariant
            records_wf(records@),
            b == record_docs(records@),
            f == batch_faults(b, path@),
            ids == rows::ids_of(b),
            payload@ == (EventDoc::Write { seq: seq as nat, records: b }),
            b.len() > 0,
            first::first_some(i as nat, f) is None,
            forall|j: int| 0 <= j < i ==> (#[trigger] b[j]).1 is Object,
    {
        proof {
            assert(json::json_wf(records@[i as int].fields));
            assert(b[i as int] == (records@[i as int].key@, records@[i as int].fields@));
        }
        match validate_record(&records[i], path) {
            Ok(_) => {},
            Err(e) => {
                proof {
                    assert(f(i as nat) == Some(e@->Corrupt_0));
                    first::lemma_first_stays(b.len(), (i + 1) as nat, f);
                }
                return Err(e);
            },
        }
        for j in 0..i
            invariant
                i < records@.len(),
                b == record_docs(records@),
                f == batch_faults(b, path@),
                ids == rows::ids_of(b),
                payload@ == (EventDoc::Write { seq: seq as nat, records: b }),
                b.len() > 0,
                first::first_some(i as nat, f) is None,
                b[i as int].1 is Object,
                forall|k: int| 0 <= k < j ==> ids.take(i as int)[k] != b[i as int].0,
        {
            if text_eq(records[j].key.as_str(), records[i].key.as_str()) {
                proof {
                    assert(ids.take(i as int)[j as int] == b[i as int].0);
                    assert(ids.take(i as int).contains(b[i as int].0));
                    assert(f(i as nat) is Some);
                    first::lemma_first_stays(b.len(), (i + 1) as nat, f);
                }
                let place = join(path, " 内出现同批次重复键 ");
                return Err(corrupt(place.as_str(), records[i].key.as_str()));
            }
        }
        proof {
            assert(!ids.take(i as int).contains(b[i as int].0));
            assert(f(i as nat) is None);
        }
    }
    Ok(records)
}

/// Checks the event in a file for snapshots and takes its last sequence number
/// and its records.
pub fn load_snapshot(version: u64, payload: EventPayload, path: &str) -> (r: Result<
    (u64, Vec<DiskRecord>),
    OpenError,
>)
    requires
        payload.wf(),
    ensures
        match r {
            Ok(v) => {
                &&& snapshot_fault(version as nat, payload@, path@) is None
                &&& payload@ == (EventDoc::Snapshot {
                    version: version as nat,
                    last_seq: v.0 as nat,
                    records: record_docs(v.1@),
                })
                &&& records_wf(v.1@)
                &&& all_objects(record_docs(v.1@))
            },
            Err(e) => e@ is Corrupt && snapshot_fault(version as nat, payload@, path@) == Some(
                e@->Corrupt_0,
            ),
        },
{
    let (stated, last_seq, records) = match payload {
        EventPayload::Snapshot { version, last_seq, records } => (version, last_seq, records),
        EventPayload::Write { .. } => {
            return Err(corrupt(path, " 不是快照文件"));
        },
    };
    if stated != version {
        let place = join(join(path, " 内的版本号 ").as_str(), decimal(stated).as_str());
        let place = join(
            join(place.as_str(), " 与文件名版本号 ").as_str(),
            decimal(version).as_str(),
        );
        return Err(corrupt(place.as_str(), " 不一致"));
    }
    let ghost b = record_docs(records@);
    let ghost f = record_faults(b, path@);
    for i in 0..records.len()
        invariant
            records_wf(records@),
            b == record_docs(records@),
            f == record_faults(b, path@),
            payload@ == (EventDoc::Snapshot {
                version: version as nat,
                last_seq: last_seq as nat,
                records: b,
            }),
            first::first_some(i as nat, f) is None,
            forall|j: int| 0 <= j < i ==> (#[trigger] b[j]).1 is Object,
    {
        proof {
            assert(json::json_wf(records@[i as int].fields));
            assert(b[i as int] == (records@[i as int].key@, records@[i as int].fields@));
        }
        match validate_record(&records[i], path) {
            Ok(_) => {
                assert(f(i as nat) is None);
            },
            Err(e) => {
                proof {
                    assert(f(i as nat) == Some(e@->Corrupt_0));
                    first::lemma_first_stays(b.len(), (i + 1) as nat, f);
                }
                return Err(e);
            },
        }
    }
    Ok((last_seq, records))
}

/// All events of a data directory, by their numbers.
pub struct Events {
    pub writes: BTreeMap<u64, Vec<DiskRecord>>,
    pub snapshots: BTreeMap<u64, (u64, Vec<DiskRecord>)>,
}

/// The writes of a log, by their sequence numbers.
pub open spec fn write_docs(m: Map<u64, Vec<DiskRecord>>) -> Map<u64, Batch> {
    m.map_values(|v: Vec<DiskRecord>| record_docs(v@))
}

/// The snapshots of a log, by their versions.
pub open spec fn snapshot_docs(m: Map<u64, (u64, Vec<DiskRecord>)>) -> Map<u64, (u64, Batch)> {
    m.map_values(|v: (u64, Vec<DiskRecord>)| (v.0, record_docs(v.1@)))
}

impl Events {
    /// All fields are objects in order.
    pub open spec fn wf(&self) -> bool {
        &&& forall|n: u64| #[trigger]
            self.writes@.contains_key(n) ==> records_wf(self.writes@[n]@) && all_objects(
                record_docs(self.writes@[n]@),
            )
        &&& forall|n: u64| #[trigger]
            self.snapshots@.contains_key(n) ==> records_wf(self.snapshots@[n].1@) && all_objects(
                record_docs(self.snapshots@[n].1@),
            )
    }

    /// No events.
    pub fn new() -> (r: Self)
        ensures
            r.wf(),
            write_docs(r.writes@) == Map::<u64, Batch>::empty(),
            snapshot_docs(r.snapshots@) == Map::<u64, (u64, Batch)>::empty(),
    {
        let r = Events { writes: BTreeMap::new(), snapshots: BTreeMap::new() };
        assert(write_docs(r.writes@) =~= Map::empty());
        assert(snapshot_docs(r.snapshots@) =~= Map::empty());
        r
    }

    /// Checks the event in a file for writes and takes it in.
    pub fn admit_write(&mut self, seq: u64, payload: EventPayload, path: &str) -> (r: Result<
        (),
        OpenError,
    >)
        requires
            old(self).wf(),
            payload.wf(),
        ensures
            final(self).wf(),
            final(self).snapshots@ == old(self).snapshots@,
            match r {
                Ok(_) => write_fault(seq as nat, payload@, path@) is None && write_docs(
                    final(self).writes@,
                ) == write_docs(old(self).writes@).insert(seq, payload@->Write_records),
                Err(e) => e@ is Corrupt && write_fault(seq as nat, payload@, path@) == Some(
                    e@->Corrupt_0,
                ) && final(self).writes@ == old(self).writes@,
            },
    {
        broadcast use vstd::std_specs::btree::group_btree_axioms;

        let records = match load_write(seq, payload, path) {
            Ok(records) => records,
            Err(e) => {
                return Err(e);
            },
        };
        let ghost before = self.writes@;
        let ghost v = records;
        self.writes.insert(seq, records);
        proof {
            assert(self.writes@ == before.insert(seq, v));
            assert(write_docs(self.writes@) =~= write_docs(before).insert(seq, record_docs(v@)));
        }
        Ok(())
    }

    /// Checks the event in a file for snapshots and takes it in.
    pub fn admit_snapshot(&mut self, version: u64, payload: EventPayload, path: &str) -> (r: Result<
        (),
        OpenError,
    >)
        requires
            old(self).wf(),
            payload.wf(),
        ensures
            final(self).wf(),
            final(self).writes@ == old(self).writes@,
            match r {
                Ok(_) => snapshot_fault(version as nat, payload@, path@) is None && snapshot_docs(
                    final(self).snapshots@,
                ) == snapshot_docs(old(self).snapshots@).insert(
                    version,
                    (payload@->last_seq as u64, payload@->Snapshot_records),
                ),
                Err(e) => e@ is Corrupt && snapshot_fault(version as nat, payload@, path@) == Some(
                    e@->Corrupt_0,
                ) && final(self).snapshots@ == old(self).snapshots@,
            },
    {
        broadcast use vstd::std_specs::btree::group_btree_axioms;

        let loaded = match load_snapshot(version, payload, path) {
            Ok(loaded) => loaded,
            Err(e) => {
                return Err(e);
            },
        };
        let ghost before = self.snapshots@;
        let ghost v = loaded;
        self.snapshots.insert(version, loaded);
        proof {
            assert(self.snapshots@ == before.insert(version, v));
            assert(snapshot_docs(self.snapshots@) =~= snapshot_docs(before).insert(
                version,
                (v.0, record_docs(v.1@)),
            ));
        }
        Ok(())
    }
}

/// Whether a number is the last of those in a set, or zero where there is none.
pub open spec fn is_last(s: Set<u64>, n: u64) -> bool {
    (n == 0 || s.contains(n)) && forall|k: u64| #[trigger] s.contains(k) ==> k <= n
}

/// The last number in a set, or zero where there is none.
pub open spec fn last_of(s: Set<u64>) -> u64 {
    choose|n: u64| is_last(s, n)
}

/// The first number from one to `n` that is not in a set.
pub open spec fn gap(s: Set<u64>, n: nat) -> Option<nat>
    decreases n,
{
    if n == 0 {
        None
    } else {
        match gap(s, (n - 1) as nat) {
            Some(g) => Some(g),
            None => if s.contains(n as u64) {
                None
            } else {
                Some(n)
            },
        }
    }
}

proof fn lemma_gap_stays(s: Set<u64>, n: nat, k: nat)
    requires
        k <= n,
        gap(s, k) is Some,
    ensures
        gap(s, n) == gap(s, k),
    decreases n - k,
{
    if k < n {
        lemma_gap_stays(s, n, k + 1);
    }
}

proof fn lemma_no_gap(s: Set<u64>, n: nat, k: nat)
    requires
        gap(s, n) is None,
        1 <= k <= n,
    ensures
        s.contains(k as u64),
    decreases n,
{
    if k < n {
        lemma_no_gap(s, (n - 1) as nat, k);
    }
}

/// The records after the writes with the numbers one to `n`.
pub open spec fn written(writes: Map<u64, Batch>, n: nat) -> Rows
    decreases n,
{
    if n == 0 {
        Map::empty()
    } else {
        rows::overlay(written(writes, (n - 1) as nat), writes[n as u64])
    }
}

/// What a log stands for.
pub struct Restored {
    pub dataset: Rows,
    pub snapshots: Seq<Rows>,
    pub last_seq: nat,
}

/// How far a log has been followed.
pub struct Progress {
    pub snapshots: Seq<Rows>,
    pub last_seq: nat,
}

/// What is wrong with a snapshot, given how far the log was followed.
pub open spec fn snapshot_mismatch(
    writes: Map<u64, Batch>,
    max_seq: nat,
    before: nat,
    version: nat,
    last_seq: nat,
    b: Batch,
) -> Option<Seq<char>> {
    let name = "快照版本 "@ + numeral::dec_text(version);
    if last_seq < before || last_seq > max_seq {
        Some(name + " 的 last_seq="@ + numeral::dec_text(last_seq) + " 越界或回退"@)
    } else {
        match change::first_repeat(rows::ids_of(b)) {
            Some(i) => Some(name + " 中存在重复键 "@ + b[i as int].0),
            None => if rows::row_map(b) != written(writes, last_seq) {
                Some(name + " 的内容与事件重放结果不一致"@)
            } else {
                None
            },
        }
    }
}

/// Follows a log through the snapshots with the versions one to `n`.
pub open spec fn follow(
    writes: Map<u64, Batch>,
    snapshots: Map<u64, (u64, Batch)>,
    max_seq: nat,
    n: nat,
) -> Result<Progress, Seq<char>>
    decreases n,
{
    if n == 0 {
        Ok(Progress { snapshots: Seq::empty(), last_seq: 0 })
    } else {
        match follow(writes, snapshots, max_seq, (n - 1) as nat) {
            Err(e) => Err(e),
            Ok(p) => {
                let (last_seq, b) = snapshots[n as u64];
                match snapshot_mismatch(writes, max_seq, p.last_seq, n, last_seq as nat, b) {
                    Some(e) => Err(e),
                    None => Ok(
                        Progress {
                            snapshots: p.snapshots.push(rows::row_map(b)),
                            last_seq: last_seq as nat,
                        },
                    ),
                }
            },
        }
    }
}

/// The state that a log stands for, or what is wrong with the log: a write or a
/// snapshot with the number zero, a missing write, a missing snapshot, or a
/// snapshot that is not what the writes before it give.
pub open spec fn restored(
    writes: Map<u64, Batch>,
    snapshots: Map<u64, (u64, Batch)>,
) -> Result<Restored, Seq<char>> {
    let max_seq = last_of(writes.dom()) as nat;
    let max_version = last_of(snapshots.dom()) as nat;
    if writes.contains_key(0) {
        Err("写入事件序号 0 非法，序号从 1 开始"@)
    } else if snapshots.contains_key(0) {
        Err("快照版本 0 非法，版本号从 1 开始"@)
    } else {
        match gap(writes.dom(), max_seq) {
            Some(n) => Err(
                "写入事件 "@ + numeral::dec_text(n) + " 缺失，事件序列不连续（最后序号 "@
                    + numeral::dec_text(max_seq) + "）"@,
            ),
            None => match gap(snapshots.dom(), max_version) {
                Some(n) => Err(
                    "快照版本 "@ + numeral::dec_text(n) + " 缺失，版本序列不连续（最后版本 "@
                        + numeral::dec_text(max_version) + "）"@,
                ),
                None => match follow(writes, snapshots, max_seq, max_version) {
                    Err(e) => Err(e),
                    Ok(p) => Ok(
                        Restored {
                            dataset: written(writes, max_seq),
                            snapshots: p.snapshots,
                            last_seq: max_seq,
                        },
                    ),
                },
            },
        }
    }
}

/// There is a last number in a set, or none at all.
pub proof fn lemma_last_of(s: Set<u64>)
    ensures
        is_last(s, last_of(s)),
{
    lemma_last_up_to(s, u64::MAX);
}

proof fn lemma_last_up_to(s: Set<u64>, n: u64)
    requires
        forall|k: u64| #[trigger] s.contains(k) ==> k <= n,
    ensures
        is_last(s, last_of(s)),
    decreases n,
{
    if n == 0 || s.contains(n) {
        assert(is_last(s, n));
    } else {
        assert forall|k: u64| #[trigger] s.contains(k) implies k <= n - 1 by {}
        lemma_last_up_to(s, (n - 1) as u64);
    }
}

proof fn lemma_last_unique(s: Set<u64>, n: u64)
    requires
        is_last(s, n),
    ensures
        last_of(s) == n,
{
    let m = last_of(s);
    assert(is_last(s, m));
    if m != 0 {
        assert(s.contains(m));
    }
    if n != 0 {
        assert(s.contains(n));
    }
}

/// A set of the numbers from one to `n` has no gap and ends there.
pub proof fn lemma_full(s: Set<u64>, n: nat)
    requires
        n <= u64::MAX,
        forall|k: u64| #[trigger] s.contains(k) <==> 1 <= k <= n,
    ensures
        last_of(s) == n,
        gap(s, n) is None,
        !s.contains(0),
{
    assert(is_last(s, n as u64)) by {
        if n > 0 {
            assert(s.contains(n as u64));
        }
    }
    let m = last_of(s);
    assert(is_last(s, m));
    if m != 0 {
        assert(s.contains(m));
    }
    if n > 0 {
        assert(s.contains(n as u64));
    }
    lemma_full_gap(s, n, n);
}

proof fn lemma_full_gap(s: Set<u64>, n: nat, k: nat)
    requires
        k <= n <= u64::MAX,
        forall|j: u64| #[trigger] s.contains(j) <==> 1 <= j <= n,
    ensures
        gap(s, k) is None,
    decreases k,
{
    if k > 0 {
        lemma_full_gap(s, n, (k - 1) as nat);
        assert(s.contains(k as u64));
    }
}

/// Whether a log has the writes one to `m` and the snapshots one to `n`, and
/// nothing else.
pub open spec fn numbered_from_one(
    writes: Map<u64, Batch>,
    snapshots: Map<u64, (u64, Batch)>,
    m: u64,
    n: u64,
) -> bool {
    &&& forall|k: u64| #[trigger] writes.contains_key(k) <==> 1 <= k <= m
    &&& forall|k: u64| #[trigger] snapshots.contains_key(k) <==> 1 <= k <= n
}

/// Whether the snapshot with a version is what the writes up to its last one
/// give, with every key once, and was taken no earlier than the one before.
pub open spec fn snapshot_fits(
    writes: Map<u64, Batch>,
    snapshots: Map<u64, (u64, Batch)>,
    m: u64,
    version: u64,
) -> bool {
    let (last_seq, b) = snapshots[version];
    &&& last_seq <= m
    &&& version > 1 ==> snapshots[(version - 1) as u64].0 <= last_seq
    &&& change::first_repeat(rows::ids_of(b)) is None
    &&& rows::row_map(b) == written(writes, last_seq as nat)
}

/// Whether a log is sound: numbered from one without a gap, with snapshots that
/// all fit its writes.
pub open spec fn sound(
    writes: Map<u64, Batch>,
    snapshots: Map<u64, (u64, Batch)>,
    m: u64,
    n: u64,
) -> bool {
    &&& numbered_from_one(writes, snapshots, m, n)
    &&& forall|v: u64| 1 <= v <= n ==> #[trigger] snapshot_fits(writes, snapshots, m, v)
}

/// What the snapshots of a sound log hold: what the writes before them give.
pub open spec fn snapshot_rows(
    writes: Map<u64, Batch>,
    snapshots: Map<u64, (u64, Batch)>,
    n: u64,
) -> Seq<Rows> {
    Seq::new(n as nat, |i: int| written(writes, snapshots[(i + 1) as u64].0 as nat))
}

proof fn lemma_follow_sound(
    writes: Map<u64, Batch>,
    snapshots: Map<u64, (u64, Batch)>,
    m: u64,
    n: u64,
)
    ensures
        follow(writes, snapshots, m as nat, n as nat) is Ok <==> forall|v: u64|
            1 <= v <= n ==> #[trigger] snapshot_fits(writes, snapshots, m, v),
        follow(writes, snapshots, m as nat, n as nat) matches Ok(p) ==> {
            &&& p.snapshots == snapshot_rows(writes, snapshots, n)
            &&& p.last_seq == if n == 0 {
                0
            } else {
                snapshots[n].0 as nat
            }
        },
    decreases n,
{
    let all = follow(writes, snapshots, m as nat, n as nat);
    if n == 0 {
        assert(snapshot_rows(writes, snapshots, n) =~= Seq::empty());
    } else {
        let p = (n - 1) as u64;
        lemma_follow_sound(writes, snapshots, m, p);
        let front = follow(writes, snapshots, m as nat, p as nat);
        if front is Ok {
            assert(all is Ok <==> snapshot_fits(writes, snapshots, m, n));
            assert forall|v: u64| all is Ok && 1 <= v <= n implies #[trigger] snapshot_fits(
                writes,
                snapshots,
                m,
                v,
            ) by {
                assert(v == n || v <= p);
            }
            if all is Ok {
                assert(all->Ok_0.snapshots =~= snapshot_rows(writes, snapshots, n));
            }
        } else {
            let v = choose|v: u64|
                1 <= v <= p && !(#[trigger] snapshot_fits(writes, snapshots, m, v));
            assert(1 <= v <= n && !snapshot_fits(writes, snapshots, m, v));
        }
    }
}

/// The state of a sound log: the dataset is what all its writes give, and every
/// version is what the writes up to its last one give.
pub proof fn law_sound_logs_are_restored(
    writes: Map<u64, Batch>,
    snapshots: Map<u64, (u64, Batch)>,
    m: u64,
    n: u64,
)
    requires
        sound(writes, snapshots, m, n),
    ensures
        restored(writes, snapshots) == Ok::<Restored, Seq<char>>(
            Restored {
                dataset: written(writes, m as nat),
                snapshots: snapshot_rows(writes, snapshots, n),
                last_seq: m as nat,
            },
        ),
{
    assert forall|k: u64| #[trigger] writes.dom().contains(k) <==> 1 <= k <= m by {
        assert(writes.contains_key(k) <==> 1 <= k <= m);
    }
    assert forall|k: u64| #[trigger] snapshots.dom().contains(k) <==> 1 <= k <= n by {
        assert(snapshots.contains_key(k) <==> 1 <= k <= n);
    }
    lemma_full(writes.dom(), m as nat);
    lemma_full(snapshots.dom(), n as nat);
    lemma_follow_sound(writes, snapshots, m, n);
}

/// A log is restored exactly if it is sound.
pub proof fn law_restored_iff_sound(writes: Map<u64, Batch>, snapshots: Map<u64, (u64, Batch)>)
    ensures
        restored(writes, snapshots) is Ok <==> exists|m: u64, n: u64|
            sound(writes, snapshots, m, n),
{
    let m = last_of(writes.dom());
    let n = last_of(snapshots.dom());
    if restored(writes, snapshots) is Ok {
        lemma_numbers(writes.dom(), m);
        lemma_numbers(snapshots.dom(), n);
        assert forall|k: u64| #[trigger] writes.contains_key(k) <==> 1 <= k <= m by {
            assert(writes.dom().contains(k) <==> 1 <= k <= m);
        }
        assert forall|k: u64| #[trigger] snapshots.contains_key(k) <==> 1 <= k <= n by {
            assert(snapshots.dom().contains(k) <==> 1 <= k <= n);
        }
        lemma_follow_sound(writes, snapshots, m, n);
        assert(sound(writes, snapshots, m, n));
    }
    if exists|x: u64, y: u64| sound(writes, snapshots, x, y) {
        let (x, y) = choose|x: u64, y: u64| sound(writes, snapshots, x, y);
        law_sound_logs_are_restored(writes, snapshots, x, y);
    }
}

proof fn lemma_numbers(s: Set<u64>, n: u64)
    requires
        n == last_of(s),
        !s.contains(0),
        gap(s, n as nat) is None,
    ensures
        forall|k: u64| #[trigger] s.contains(k) <==> 1 <= k <= n,
{
    lemma_last_of(s);
    assert forall|k: u64| #[trigger] s.contains(k) <==> 1 <= k <= n by {
        if 1 <= k <= n {
            lemma_no_gap(s, n as nat, k as nat);
        }
    }
}

/// The last key of a map, or zero where it has none.
fn last_key<V>(m: &BTreeMap<u64, V>) -> (r: u64)
    ensures
        is_last(m@.dom(), r),
        r == last_of(m@.dom()),
{
    broadcast use vstd::std_specs::btree::group_btree_axioms;

    let mut r: u64 = 0;
    for k in it: m.keys()
        invariant
            it.seq().unref().to_set() == m@.dom(),
            r == 0 || m@.dom().contains(r),
            forall|j: int| 0 <= j < it.index() ==> *it.seq()[j] <= r,
    {
        proof {
            let s = it.seq().unref();
            assert(s[it.index() as int] == *k);
            assert(s.contains(*k));
            assert(s.to_set().contains(*k));
        }
        if *k > r {
            r = *k;
        }
    }
    proof {
        let s = vstd::std_specs::btree::spec_keys_iter(m);
        let keys = vstd::std_specs::iter::IteratorSpec::remaining(&s).unref();
        assert forall|k: u64| #[trigger] m@.dom().contains(k) implies k <= r by {
            assert(keys.to_set().contains(k));
            assert(keys.contains(k));
        }
        lemma_last_unique(m@.dom(), r);
    }
    r
}

/// The first number from one to the last that is no key of a map.
fn first_gap<V>(m: &BTreeMap<u64, V>, last: u64) -> (r: Option<u64>)
    ensures
        match r {
            Some(n) => gap(m@.dom(), last as nat) == Some(n as nat),
            None => gap(m@.dom(), last as nat) is None,
        },
{
    broadcast use vstd::std_specs::btree::group_btree_axioms;

    let mut n: u64 = 0;
    while n < last
        invariant
            n <= last,
            gap(m@.dom(), n as nat) is None,
        decreases last - n,
    {
        n = n + 1;
        if !m.contains_key(&n) {
            proof {
                assert(gap(m@.dom(), n as nat) == Some(n as nat));
                lemma_gap_stays(m@.dom(), last as nat, n as nat);
            }
            return Some(n);
        }
    }
    None
}

/// Writes a batch over records.
fn write_over(current: &mut SortedMap<Json>, records: &Vec<DiskRecord>)
    requires
        json::map_wf(*old(current)),
        records_wf(records@),
    ensures
        json::map_wf(*final(current)),
        json::map_docs(final(current)@) == rows::overlay(
            json::map_docs(old(current)@),
            record_docs(records@),
        ),
{
    let ghost start = json::map_docs(current@);
    let ghost b = record_docs(records@);
    assert(b.take(0) =~= Seq::empty());
    for i in 0..records.len()
        invariant
            json::map_wf(*current),
            records_wf(records@),
            b == record_docs(records@),
            json::map_docs(current@) == rows::overlay(start, b.take(i as int)),
    {
        proof {
            assert(json::json_wf(records@[i as int].fields));
            assert(b.take(i + 1).drop_last() =~= b.take(i as int));
        }
        let ghost before = *current;
        let fields = records[i].fields.copy();
        let ghost v = fields;
        current.insert(records[i].key.clone(), fields);
        proof {
            json::lemma_map_insert_wf(before, *current, records@[i as int].key@, v);
        }
    }
    assert(b.take(records@.len() as int) =~= b);
}

/// The records of a snapshot by their keys, or the first key that stands again.
fn snapshot_records(records: &Vec<DiskRecord>) -> (r: Result<SortedMap<Json>, usize>)
    requires
        records_wf(records@),
    ensures
        match r {
            Ok(m) => json::map_wf(m) && change::first_repeat(rows::ids_of(record_docs(records@)))
                is None && json::map_docs(m@) == rows::row_map(record_docs(records@)),
            Err(i) => i < records@.len() && change::first_repeat(
                rows::ids_of(record_docs(records@)),
            ) == Some(i as nat),
        },
{
    let mut m: SortedMap<Json> = SortedMap::new();
    let ghost b = record_docs(records@);
    let ghost ids = rows::ids_of(b);
    proof {
        assert(b.take(0) =~= Seq::empty());
        assert(ids.take(0) =~= Seq::empty());
        assert(json::map_docs(m@) =~= Map::empty());
    }
    for i in 0..records.len()
        invariant
            records_wf(records@),
            json::map_wf(m),
            b == record_docs(records@),
            ids == rows::ids_of(b),
            json::map_docs(m@) == rows::row_map(b.take(i as int)),
            change::first_repeat(ids.take(i as int)) is None,
    {
        let ghost before = m;
        let ghost front = b.take(i as int);
        proof {
            assert(json::json_wf(records@[i as int].fields));
            assert(b.take(i + 1).drop_last() =~= front);
            assert(ids.take(i + 1).drop_last() =~= ids.take(i as int));
            assert(rows::ids_of(front) =~= ids.take(i as int));
            rows::lemma_row_map(front);
            assert(before@.contains_key(ids[i as int]) == json::map_docs(before@).contains_key(
                ids[i as int],
            ));
        }
        let fields = records[i].fields.copy();
        let ghost v = fields;
        let prior = m.insert(records[i].key.clone(), fields);
        proof {
            json::lemma_map_insert_wf(before, m, ids[i as int], v);
        }
        if prior.is_some() {
            proof {
                change::lemma_repeat_stays(ids, i + 1);
            }
            return Err(i);
        }
    }
    proof {
        assert(b.take(records@.len() as int) =~= b);
        assert(ids.take(records@.len() as int) =~= ids);
    }
    Ok(m)
}

/// The saved versions as mathematical values.
pub open spec fn saved_docs(s: Seq<Snapshot>) -> Seq<Rows> {
    Seq::new(s.len(), |i: int| json::map_docs(s[i].records@))
}

/// Whether saved versions are in order and numbered from one.
pub open spec fn saved_wf(s: Seq<Snapshot>) -> bool {
    forall|i: int|
        0 <= i < s.len() ==> json::map_wf((#[trigger] s[i]).records) && s[i].version == i + 1
}

/// Whether all records have objects as fields.
pub open spec fn objects_only(rows: Rows) -> bool {
    forall|k: Seq<char>| #[trigger] rows.contains_key(k) ==> rows[k] is Object
}

/// Writing records with objects over such records leaves only such records.
pub proof fn lemma_overlay_objects(rows: Rows, b: Batch)
    requires
        objects_only(rows),
        all_objects(b),
    ensures
        objects_only(rows::overlay(rows, b)),
    decreases b.len(),
{
    if b.len() > 0 {
        assert(all_objects(b.drop_last())) by {
            assert forall|i: int| 0 <= i < b.drop_last().len() implies (
            #[trigger] b.drop_last()[i]).1 is Object by {
                assert(b[i].1 is Object);
            }
        }
        lemma_overlay_objects(rows, b.drop_last());
        assert(b[b.len() - 1].1 is Object);
    }
}

proof fn lemma_written_objects(writes: Map<u64, Batch>, n: nat)
    requires
        gap(writes.dom(), n) is None,
        n <= u64::MAX,
        forall|k: u64| #[trigger] writes.contains_key(k) ==> all_objects(writes[k]),
    ensures
        objects_only(written(writes, n)),
    decreases n,
{
    if n > 0 {
        lemma_written_objects(writes, (n - 1) as nat);
        lemma_no_gap(writes.dom(), n, n);
        assert(writes.contains_key(n as u64));
        lemma_overlay_objects(written(writes, (n - 1) as nat), writes[n as u64]);
    }
}

/// Plays the writes after the number `done` up to `last` over the records.
fn play(
    writes: &BTreeMap<u64, Vec<DiskRecord>>,
    current: &mut SortedMap<Json>,
    done: u64,
    last: u64,
)
    requires
        json::map_wf(*old(current)),
        done <= last,
        gap(writes@.dom(), last as nat) is None,
        forall|n: u64| #[trigger] writes@.contains_key(n) ==> records_wf(writes@[n]@),
        json::map_docs(old(current)@) == written(write_docs(writes@), done as nat),
    ensures
        json::map_wf(*final(current)),
        json::map_docs(final(current)@) == written(write_docs(writes@), last as nat),
{
    broadcast use vstd::std_specs::btree::group_btree_axioms;

    let mut n: u64 = done;
    while n < last
        invariant
            json::map_wf(*current),
            done <= n <= last,
            gap(writes@.dom(), last as nat) is None,
            forall|k: u64| #[trigger] writes@.contains_key(k) ==> records_wf(writes@[k]@),
            json::map_docs(current@) == written(write_docs(writes@), n as nat),
        decreases last - n,
    {
        n = n + 1;
        proof {
            lemma_no_gap(writes@.dom(), last as nat, n as nat);
            assert(writes@.contains_key(n));
        }
        if let Some(records) = writes.get(&n) {
            assert(*records == writes@[n]);
            write_over(current, records);
        }
    }
}

/// Follows a log: plays its writes and compares every snapshot with what the
/// writes before it give.
pub fn replay(events: &Events) -> (r: Result<(Dataset, Vec<Snapshot>, u64), OpenError>)
    requires
        events.wf(),
    ensures
        match r {
            Ok(v) => {
                let state = restored(write_docs(events.writes@), snapshot_docs(events.snapshots@));
                &&& state is Ok
                &&& entries::dataset_docs(v.0@) == state->Ok_0.dataset
                &&& entries::dataset_wf(v.0)
                &&& saved_docs(v.1@) == state->Ok_0.snapshots
                &&& saved_wf(v.1@)
                &&& v.2 == state->Ok_0.last_seq
            },
            Err(e) => e@ is Corrupt && restored(
                write_docs(events.writes@),
                snapshot_docs(events.snapshots@),
            ) == Err::<Restored, Seq<char>>(e@->Corrupt_0),
        },
{
    broadcast use vstd::std_specs::btree::group_btree_axioms;

    let ghost writes = write_docs(events.writes@);
    let ghost snapshots = snapshot_docs(events.snapshots@);
    proof {
        assert(writes.dom() =~= events.writes@.dom());
        assert(snapshots.dom() =~= events.snapshots@.dom());
    }
    if events.writes.contains_key(&0) {
        return Err(OpenError::Corrupt("写入事件序号 0 非法，序号从 1 开始".to_owned()));
    }
    if events.snapshots.contains_key(&0) {
        return Err(OpenError::Corrupt("快照版本 0 非法，版本号从 1 开始".to_owned()));
    }
    let max_seq = last_key(&events.writes);
    let max_version = last_key(&events.snapshots);
    if let Some(n) = first_gap(&events.writes, max_seq) {
        let place = join("写入事件 ", decimal(n).as_str());
        let place = join(place.as_str(), " 缺失，事件序列不连续（最后序号 ");
        let place = join(place.as_str(), decimal(max_seq).as_str());
        return Err(corrupt(place.as_str(), "）"));
    }
    if let Some(n) = first_gap(&events.snapshots, max_version) {
        let place = join("快照版本 ", decimal(n).as_str());
        let place = join(place.as_str(), " 缺失，版本序列不连续（最后版本 ");
        let place = join(place.as_str(), decimal(max_version).as_str());
        return Err(corrupt(place.as_str(), "）"));
    }
    let mut current: SortedMap<Json> = SortedMap::new();
    let mut recovered: Vec<Snapshot> = Vec::new();
    let mut done: u64 = 0;
    let mut version: u64 = 0;
    proof {
        assert(json::map_docs(current@) =~= Map::empty());
        assert(saved_docs(recovered@) =~= Seq::empty());
    }
    while version < max_version
        invariant
            events.wf(),
            writes == write_docs(events.writes@),
            snapshots == snapshot_docs(events.snapshots@),
            writes.dom() == events.writes@.dom(),
            snapshots.dom() == events.snapshots@.dom(),
            !writes.contains_key(0),
            !snapshots.contains_key(0),
            max_seq == last_of(writes.dom()),
            max_version == last_of(snapshots.dom()),
            gap(writes.dom(), max_seq as nat) is None,
            gap(snapshots.dom(), max_version as nat) is None,
            version <= max_version,
            done <= max_seq,
            json::map_wf(current),
            json::map_docs(current@) == written(writes, done as nat),
            follow(writes, snapshots, max_seq as nat, version as nat) == Ok::<Progress, Seq<char>>(
                Progress { snapshots: saved_docs(recovered@), last_seq: done as nat },
            ),
            saved_wf(recovered@),
            recovered@.len() == version,
        decreases max_version - version,
    {
        version = version + 1;
        let ghost v = version as nat;
        proof {
            lemma_no_gap(snapshots.dom(), max_version as nat, v);
            assert(events.snapshots@.contains_key(version));
        }
        let name = join("快照版本 ", decimal(version).as_str());
        let (last_seq, records) = match events.snapshots.get(&version) {
            Some(found) => (found.0, &found.1),
            None => vstd::pervasive::unreached(),
        };
        let ghost b = record_docs(records@);
        proof {
            assert(snapshots[version] == (last_seq, b));
        }
        if last_seq < done || last_seq > max_seq {
            let place = join(join(name.as_str(), " 的 last_seq=").as_str(), decimal(last_seq).as_str());
            proof {
                lemma_follow_stays(writes, snapshots, max_seq as nat, max_version as nat, v);
            }
            return Err(corrupt(place.as_str(), " 越界或回退"));
        }
        proof {
            lemma_gap_shorter(events.writes@.dom(), max_seq as nat, last_seq as nat);
        }
        play(&events.writes, &mut current, done, last_seq);
        let saved = match snapshot_records(records) {
            Ok(saved) => saved,
            Err(i) => {
                let place = join(name.as_str(), " 中存在重复键 ");
                proof {
                    lemma_follow_stays(writes, snapshots, max_seq as nat, max_version as nat, v);
                }
                return Err(corrupt(place.as_str(), records[i].key.as_str()));
            },
        };
        if !same_map(&saved, &current) {
            proof {
                lemma_follow_stays(writes, snapshots, max_seq as nat, max_version as nat, v);
            }
            return Err(corrupt(name.as_str(), " 的内容与事件重放结果不一致"));
        }
        let ghost shown = saved_docs(recovered@);
        recovered.push(Snapshot { version, records: saved });
        done = last_seq;
        proof {
            assert(saved_docs(recovered@) =~= shown.push(rows::row_map(b)));
        }
    }
    play(&events.writes, &mut current, done, max_seq);
    proof {
        assert forall|k: u64| #[trigger] writes.contains_key(k) implies all_objects(writes[k]) by {
            assert(events.writes@.contains_key(k));
        }
        lemma_written_objects(writes, max_seq as nat);
    }
    Ok((dataset_of(current), recovered, max_seq))
}

proof fn lemma_gap_shorter(s: Set<u64>, n: nat, k: nat)
    requires
        k <= n,
        gap(s, n) is None,
    ensures
        gap(s, k) is None,
    decreases n,
{
    if k < n {
        lemma_gap_shorter(s, (n - 1) as nat, k);
    }
}

proof fn lemma_follow_stays(
    writes: Map<u64, Batch>,
    snapshots: Map<u64, (u64, Batch)>,
    max_seq: nat,
    n: nat,
    k: nat,
)
    requires
        k <= n,
        follow(writes, snapshots, max_seq, k) is Err,
    ensures
        follow(writes, snapshots, max_seq, n) == follow(writes, snapshots, max_seq, k),
    decreases n - k,
{
    if k < n {
        lemma_follow_stays(writes, snapshots, max_seq, n, k + 1);
    }
}

/// The members of the records' fields.
pub fn dataset_of(records: SortedMap<Json>) -> (r: Dataset)
    requires
        json::map_wf(records),
        objects_only(json::map_docs(records@)),
    ensures
        entries::dataset_wf(r),
        entries::dataset_docs(r@) == json::map_docs(records@),
{
    let ghost start = records;
    let mut rest = records.entries;
    let mut back: Vec<(String, SortedMap<Json>)> = Vec::new();
    let ghost n = rest@.len();
    proof {
        assert forall|i: int| 0 <= i < n implies (#[trigger] start.entries@[i]).1@ is Object by {
            sorted_map::lemma_map_of_entry(start.entries@, i);
            let k = start.entries@[i].0@;
            assert(json::map_docs(start@).contains_key(k));
        }
    }
    loop
        invariant
            json::map_wf(start),
            n == start.entries@.len(),
            rest@.len() <= n,
            rest@ == start.entries@.take(rest@.len() as int),
            back@.len() == n - rest@.len(),
            forall|i: int| 0 <= i < n ==> (#[trigger] start.entries@[i]).1@ is Object,
            forall|i: int|
                0 <= i < back@.len() ==> {
                    let e = start.entries@[n - 1 - i];
                    &&& (#[trigger] back@[i]).0@ == e.0@
                    &&& e.1@ == Tree::<Seq<char>>::Object(json::map_docs(back@[i].1@))
                    &&& json::map_wf(back@[i].1)
                },
        ensures
            rest@.len() == 0,
        decreases rest@.len(),
    {
        let ghost left = rest@;
        match rest.pop() {
            None => {
                break;
            },
            Some((key, fields)) => {
                proof {
                    assert(left[left.len() - 1] == start.entries@[left.len() - 1]);
                    assert(rest@ =~= start.entries@.take(rest@.len() as int));
                    assert(json::json_wf(start.entries@[left.len() - 1].1));
                }
                match fields {
                    Json::Object(m) => {
                        proof {
                            json::lemma_object_doc(m);
                        }
                        back.push((key, m));
                    },
                    _ => {
                        proof {
                            assert(start.entries@[left.len() - 1].1@ is Object);
                        }
                        back.push((key, SortedMap::new()));
                    },
                }
            },
        }
    }
    let ghost all = back@;
    let entries = reversed(back);
    let r = SortedMap { entries };
    proof {
        assert forall|i: int| 0 <= i < r.entries@.len() implies {
            &&& (#[trigger] r.entries@[i]).0@ == start.entries@[i].0@
            &&& start.entries@[i].1@ == Tree::<Seq<char>>::Object(json::map_docs(r.entries@[i].1@))
            &&& json::map_wf(r.entries@[i].1)
        } by {
            assert(r.entries@[i] == all[n - 1 - i]);
        }
        assert(r.keys() =~= start.keys());
        assert forall|k: Seq<char>| start@.contains_key(k) implies entries::dataset_docs(r@)[k]
            == json::map_docs(start@)[k] by {
            sorted_map::lemma_map_of_key(start.entries@, k);
            let i = sorted_map::position(start.entries@, k);
            sorted_map::lemma_map_of_entry(start.entries@, i);
            sorted_map::lemma_map_of_entry(r.entries@, i);
        }
        assert(entries::dataset_docs(r@) =~= json::map_docs(start@));
    }
    r
}

/// The event in a file for writes is accepted exactly if it is a write with the
/// number of the file, has records, all of them with objects as fields, and no
/// two with the same key.
pub proof fn law_writes_accepted(seq: nat, e: EventDoc, path: Seq<char>)
    ensures
        write_fault(seq, e, path) is None <==> (e matches EventDoc::Write { seq: stated, records }
            && stated == seq && records.len() > 0 && (forall|i: int|
            0 <= i < records.len() ==> (#[trigger] records[i]).1 is Object) && forall|i: int, j: int|
            0 <= i < j < records.len() ==> (#[trigger] records[i]).0 != (#[trigger] records[j]).0),
{
    if let EventDoc::Write { seq: stated, records } = e {
        let f = batch_faults(records, path);
        let ids = rows::ids_of(records);
        first::lemma_none_found(records.len(), f);
        if write_fault(seq, e, path) is None {
            assert forall|i: int| 0 <= i < records.len() implies (#[trigger] records[i]).1 is Object by {
                assert(f(i as nat) is None);
            }
            assert forall|i: int, j: int| 0 <= i < j < records.len() implies (
            #[trigger] records[i]).0 != (#[trigger] records[j]).0 by {
                assert(f(j as nat) is None);
                let front = ids.take(j);
                assert(front[i] == records[i].0);
                if records[i].0 == records[j].0 {
                    assert(front.contains(records[j].0));
                }
            }
        }
        if stated == seq && records.len() > 0 && (forall|i: int|
            0 <= i < records.len() ==> (#[trigger] records[i]).1 is Object) && forall|i: int, j: int|
            0 <= i < j < records.len() ==> (#[trigger] records[i]).0 != (#[trigger] records[j]).0 {
            assert forall|i: nat| i < records.len() implies #[trigger] f(i) is None by {
                assert(records[i as int].1 is Object);
                let front = ids.take(i as int);
                if front.contains(records[i as int].0) {
                    let j = choose|j: int| 0 <= j < front.len() && front[j] == records[i as int].0;
                    assert(records[j].0 != records[i as int].0);
                }
            }
        }
    }
}

/// The event in a file for snapshots is accepted exactly if it is a snapshot with
/// the version of the file, and all its records have objects as fields.
pub proof fn law_snapshots_accepted(version: nat, e: EventDoc, path: Seq<char>)
    ensures
        snapshot_fault(version, e, path) is None <==> (e matches EventDoc::Snapshot {
            version: stated,
            records,
            ..
        } && stated == version && forall|i: int|
            0 <= i < records.len() ==> (#[trigger] records[i]).1 is Object),
{
    if let EventDoc::Snapshot { version: stated, records, .. } = e {
        let f = record_faults(records, path);
        first::lemma_none_found(records.len(), f);
        if snapshot_fault(version, e, path) is None {
            assert forall|i: int| 0 <= i < records.len() implies (#[trigger] records[i]).1 is Object by {
                assert(f(i as nat) is None);
            }
        }
        if forall|i: int| 0 <= i < records.len() ==> (#[trigger] records[i]).1 is Object {
            assert forall|i: nat| i < records.len() implies #[trigger] f(i) is None by {
                assert(records[i as int].1 is Object);
            }
        }
    }
}

/// What is wrong with the event in a file is told: that it is of the other kind,
/// that it states another number, that it has no records, or the first record
/// with fields that are no object or with a key that stood before.
pub proof fn law_event_faults_are_told(n: nat, m: nat, last: nat, b: Batch, path: Seq<char>, i: int)
    ensures
        write_fault(n, EventDoc::Snapshot { version: m, last_seq: last, records: b }, path) == Some(
            path + " 不是写入事件文件"@,
        ),
        snapshot_fault(n, EventDoc::Write { seq: m, records: b }, path) == Some(
            path + " 不是快照文件"@,
        ),
        m != n ==> write_fault(n, EventDoc::Write { seq: m, records: b }, path) == Some(
            path + " 内的序号 "@ + numeral::dec_text(m) + " 与文件名序号 "@ + numeral::dec_text(n)
                + " 不一致"@,
        ),
        m != n ==> snapshot_fault(
            n,
            EventDoc::Snapshot { version: m, last_seq: last, records: b },
            path,
        ) == Some(
            path + " 内的版本号 "@ + numeral::dec_text(m) + " 与文件名版本号 "@
                + numeral::dec_text(n) + " 不一致"@,
        ),
        write_fault(n, EventDoc::Write { seq: n, records: Seq::empty() }, path) == Some(
            path + " 是空批次事件，协议不允许"@,
        ),
        0 <= i < b.len() && !(b[i].1 is Object) && (forall|j: int|
            0 <= j < i ==> (#[trigger] b[j]).1 is Object) ==> snapshot_fault(
            n,
            EventDoc::Snapshot { version: n, last_seq: last, records: b },
            path,
        ) == Some(path + " 中键 "@ + b[i].0 + " 的 fields 不是 JSON 对象"@),
        0 <= i < b.len() && (forall|j: int| 0 <= j < i ==> (#[trigger] b[j]).1 is Object) && (forall|
            j: int,
            k: int,
        |
            0 <= j < k < i ==> (#[trigger] b[j]).0 != (#[trigger] b[k]).0) ==> {
            &&& !(b[i].1 is Object) ==> write_fault(n, EventDoc::Write { seq: n, records: b }, path)
                == Some(path + " 中键 "@ + b[i].0 + " 的 fields 不是 JSON 对象"@)
            &&& b[i].1 is Object && (exists|j: int| 0 <= j < i && (#[trigger] b[j]).0 == b[i].0)
                ==> write_fault(n, EventDoc::Write { seq: n, records: b }, path) == Some(
                path + " 内出现同批次重复键 "@ + b[i].0,
            )
        },
{
    let f = record_faults(b, path);
    let g = batch_faults(b, path);
    let ids = rows::ids_of(b);
    if 0 <= i < b.len() && forall|j: int| 0 <= j < i ==> (#[trigger] b[j]).1 is Object {
        assert forall|j: nat| j < i implies #[trigger] f(j) is None by {
            assert(b[j as int].1 is Object);
        }
        if f(i as nat) is Some {
            first::law_first_is_least(b.len(), f, i as nat);
        }
        if forall|j: int, k: int| 0 <= j < k < i ==> (#[trigger] b[j]).0 != (#[trigger] b[k]).0 {
            assert forall|j: nat| j < i implies #[trigger] g(j) is None by {
                assert(b[j as int].1 is Object);
                let front = ids.take(j as int);
                if front.contains(b[j as int].0) {
                    let k = choose|k: int| 0 <= k < front.len() && front[k] == b[j as int].0;
                    assert(b[k].0 != b[j as int].0);
                }
            }
            if exists|j: int| 0 <= j < i && (#[trigger] b[j]).0 == b[i].0 {
                let j = choose|j: int| 0 <= j < i && (#[trigger] b[j]).0 == b[i].0;
                assert(ids.take(i)[j] == b[i].0);
            }
            if g(i as nat) is Some {
                first::law_first_is_least(b.len(), g, i as nat);
            }
        }
    }
}

/// The records after some writes are what the last write that names a key gave
/// it, and nothing for a key that no write names.
pub proof fn law_last_write_counts(writes: Map<u64, Batch>, n: nat, m: u64, i: int, key: Seq<char>)
    requires
        n <= u64::MAX,
    ensures
        1 <= m <= n && 0 <= i < writes[m].len() && (forall|j: int|
            i < j < writes[m].len() ==> (#[trigger] writes[m][j]).0 != writes[m][i].0) && (forall|
            k: u64,
            j: int,
        |
            m < k <= n && 0 <= j < writes[k].len() ==> (#[trigger] writes[k][j]).0
                != writes[m][i].0) ==> written(writes, n).contains_key(writes[m][i].0) && written(
            writes,
            n,
        )[writes[m][i].0] == writes[m][i].1,
        (forall|k: u64, j: int|
            1 <= k <= n && 0 <= j < writes[k].len() ==> (#[trigger] writes[k][j]).0 != key)
            ==> !written(writes, n).contains_key(key),
    decreases n,
{
    if n > 0 {
        let p = (n - 1) as nat;
        law_last_write_counts(writes, p, m, i, key);
        let b = writes[n as u64];
        if 1 <= m <= n && 0 <= i < writes[m].len() {
            let k = writes[m][i].0;
            rows::law_overlay(written(writes, p), b, i, k);
            if m < n && forall|k2: u64, j: int|
                m < k2 <= n && 0 <= j < writes[k2].len() ==> (#[trigger] writes[k2][j]).0 != k {
                assert forall|j: int| 0 <= j < b.len() implies (#[trigger] b[j]).0 != k by {
                    assert(writes[n as u64][j].0 != k);
                }
            }
        }
        rows::law_overlay(written(writes, p), b, i, key);
        if forall|k: u64, j: int|
            1 <= k <= n && 0 <= j < writes[k].len() ==> (#[trigger] writes[k][j]).0 != key {
            assert forall|j: int| 0 <= j < b.len() implies (#[trigger] b[j]).0 != key by {
                assert(writes[n as u64][j].0 != key);
            }
        }
    }
}

/// The last number of a set is in it and none is greater; a set without numbers
/// ends at zero. The gap is the least number from one that is missing.
pub proof fn law_numbers_of_files(s: Set<u64>, n: u64, g: nat)
    ensures
        forall|k: u64| #[trigger] s.contains(k) ==> k <= last_of(s),
        last_of(s) == 0 || s.contains(last_of(s)),
        gap(s, n as nat) == Some(g) <==> 1 <= g <= n && !s.contains(g as u64) && forall|k: u64|
            1 <= k < g ==> #[trigger] s.contains(k),
        gap(s, n as nat) is None <==> forall|k: u64| 1 <= k <= n ==> #[trigger] s.contains(k),
    decreases n,
{
    lemma_last_of(s);
    if n > 0 {
        let p = (n - 1) as u64;
        law_numbers_of_files(s, p, g);
        if gap(s, p as nat) is Some {
            law_numbers_of_files(s, p, gap(s, p as nat)->0);
        }
    }
}

/// A log that is not restored is reported with the first thing that is wrong: a
/// number zero, a write that is missing, or a snapshot that is missing.
pub proof fn law_bad_numbers_are_reported(
    writes: Map<u64, Batch>,
    snapshots: Map<u64, (u64, Batch)>,
    m: u64,
    n: u64,
    g: nat,
)
    requires
        is_last(writes.dom(), m),
        is_last(snapshots.dom(), n),
    ensures
        writes.contains_key(0) ==> restored(writes, snapshots) == Err::<Restored, Seq<char>>(
            "写入事件序号 0 非法，序号从 1 开始"@,
        ),
        !writes.contains_key(0) && snapshots.contains_key(0) ==> restored(writes, snapshots) == Err::<
            Restored,
            Seq<char>,
        >("快照版本 0 非法，版本号从 1 开始"@),
        !writes.contains_key(0) && !snapshots.contains_key(0) ==> {
            let missing = |s: Set<u64>, last: u64|
                1 <= g <= last && !s.contains(g as u64) && forall|k: u64|
                    1 <= k < g ==> #[trigger] s.contains(k);
            &&& missing(writes.dom(), m) ==> restored(writes, snapshots) == Err::<Restored, Seq<char>>(
                "写入事件 "@ + numeral::dec_text(g) + " 缺失，事件序列不连续（最后序号 "@
                    + numeral::dec_text(m as nat) + "）"@,
            )
            &&& (forall|k: u64| 1 <= k <= m ==> #[trigger] writes.dom().contains(k)) && missing(
                snapshots.dom(),
                n,
            ) ==> restored(writes, snapshots) == Err::<Restored, Seq<char>>(
                "快照版本 "@ + numeral::dec_text(g) + " 缺失，版本序列不连续（最后版本 "@
                    + numeral::dec_text(n as nat) + "）"@,
            )
        },
{
    lemma_last_unique(writes.dom(), m);
    lemma_last_unique(snapshots.dom(), n);
    law_numbers_of_files(writes.dom(), m, g);
    law_numbers_of_files(snapshots.dom(), n, g);
}

/// The first snapshot of a log that does not fit its writes is reported, with
/// what is wrong about it.
pub proof fn law_bad_snapshots_are_reported(
    writes: Map<u64, Batch>,
    snapshots: Map<u64, (u64, Batch)>,
    m: u64,
    n: u64,
    v: u64,
)
    requires
        numbered_from_one(writes, snapshots, m, n),
        1 <= v <= n,
        forall|w: u64| 1 <= w < v ==> #[trigger] snapshot_fits(writes, snapshots, m, w),
        !snapshot_fits(writes, snapshots, m, v),
    ensures
        ({
            let (last_seq, b) = snapshots[v];
            let before = if v > 1 {
                snapshots[(v - 1) as u64].0
            } else {
                0
            };
            let name = "快照版本 "@ + numeral::dec_text(v as nat);
            restored(writes, snapshots) == Err::<Restored, Seq<char>>(
                if last_seq < before || last_seq > m {
                    name + " 的 last_seq="@ + numeral::dec_text(last_seq as nat) + " 越界或回退"@
                } else if change::first_repeat(rows::ids_of(b)) is Some {
                    name + " 中存在重复键 "@ + b[change::first_repeat(rows::ids_of(b))->0 as int].0
                } else {
                    name + " 的内容与事件重放结果不一致"@
                },
            )
        }),
{
    assert forall|k: u64| #[trigger] writes.dom().contains(k) <==> 1 <= k <= m by {
        assert(writes.contains_key(k) <==> 1 <= k <= m);
    }
    assert forall|k: u64| #[trigger] snapshots.dom().contains(k) <==> 1 <= k <= n by {
        assert(snapshots.contains_key(k) <==> 1 <= k <= n);
    }
    lemma_full(writes.dom(), m as nat);
    lemma_full(snapshots.dom(), n as nat);
    lemma_follow_sound(writes, snapshots, m, (v - 1) as u64);
    lemma_follow_stays(writes, snapshots, m as nat, n as nat, v as nat);
}

/// Records stand for their keys and fields, events for all their records, and
/// saved versions for theirs, in their order.
pub proof fn law_records(v: Seq<DiskRecord>, s: Seq<Snapshot>, i: int)
    ensures
        record_docs(v).len() == v.len(),
        0 <= i < v.len() ==> record_docs(v)[i] == (v[i].key@, v[i].fields@),
        saved_docs(s).len() == s.len(),
        0 <= i < s.len() ==> saved_docs(s)[i] == json::map_docs(s[i].records@),
        saved_wf(s) && 0 <= i < s.len() ==> s[i].version == i + 1,
{
}

/// Events stand for their numbers and all their records.
pub proof fn law_events_stand_for(seq: u64, last_seq: u64, records: Vec<DiskRecord>)
    ensures
        (EventPayload::Write { seq, records })@ == (EventDoc::Write {
            seq: seq as nat,
            records: record_docs(records@),
        }),
        (EventPayload::Snapshot { version: seq, last_seq, records })@ == (EventDoc::Snapshot {
            version: seq as nat,
            last_seq: last_seq as nat,
            records: record_docs(records@),
        }),
{
}

/// Taken-in events stand for all that was taken in, under their numbers.
pub proof fn law_taken_in(w: Map<u64, Vec<DiskRecord>>, s: Map<u64, (u64, Vec<DiskRecord>)>, n: u64)
    ensures
        write_docs(w).contains_key(n) == w.contains_key(n),
        w.contains_key(n) ==> write_docs(w)[n] == record_docs(w[n]@),
        snapshot_docs(s).contains_key(n) == s.contains_key(n),
        s.contains_key(n) ==> snapshot_docs(s)[n] == (s[n].0, record_docs(s[n].1@)),
{
}

} // verus!
