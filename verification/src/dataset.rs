//! One dataset that is written in batches and saved as numbered versions.
use vstd::prelude::*;

use crate::change;
use crate::entries;
use crate::entries::{records_of, Dataset};
use crate::fault::join;
use crate::first;
use crate::input;
use crate::input::read_json;
use crate::journal;
use crate::journal::Held;
use crate::json;
use crate::json::{copy_map, object, Json};
use crate::numeral;
use crate::numeral::{are_digits, decimal, read_decimal};
use crate::persist;
use crate::persist::Snapshot;
use crate::rows;
use crate::rows::{Batch, Rows};
use crate::sorted_map;
use crate::sorted_map::SortedMap;
use crate::text::chars_of;
use crate::tree::{Doc, Tree};
use crate::value;
use crate::value::{as_array, as_object, get, get_text};

verus! {

/// The current records and all saved versions, the first of which is one.
#[derive(Debug)]
pub struct DataStore {
    pub records: SortedMap<Json>,
    pub snapshots: Vec<Snapshot>,
}

impl View for DataStore {
    type V = Held;

    open spec fn view(&self) -> Held {
        Held {
            dataset: json::map_docs(self.records@),
            snapshots: persist::saved_docs(self.snapshots@),
        }
    }
}

impl DataStore {
    /// Everything is in order, and versions count from one.
    pub open spec fn wf(&self) -> bool {
        json::map_wf(self.records) && persist::saved_wf(self.snapshots@)
    }

    /// No records and no versions.
    pub fn new() -> (r: Self)
        ensures
            r.wf(),
            r@ == (Held { dataset: Map::empty(), snapshots: Seq::empty() }),
    {
        let r = DataStore { records: SortedMap::new(), snapshots: Vec::new() };
        assert(r@.dataset =~= Map::empty());
        assert(r@.snapshots =~= Seq::empty());
        r
    }

    /// Goes on from a restored state.
    pub fn restore(dataset: Dataset, snapshots: Vec<Snapshot>) -> (r: Self)
        requires
            entries::dataset_wf(dataset),
            persist::saved_wf(snapshots@),
        ensures
            r.wf(),
            r@ == (Held {
                dataset: entries::dataset_docs(dataset@),
                snapshots: persist::saved_docs(snapshots@),
            }),
    {
        DataStore { records: records_of(dataset), snapshots }
    }
}

/// Why a batch is refused. A fault of one record comes with its index.
#[derive(Debug)]
pub enum WriteError {
    Malformed,
    EmptyBatch,
    NotARecord { index: usize },
    NoKey { index: usize },
    NoFields { index: usize },
    RepeatedKey { index: usize, key: String },
}

/// Why a batch is refused, as a mathematical value.
pub enum WriteFault {
    Malformed,
    EmptyBatch,
    NotARecord(nat),
    NoKey(nat),
    NoFields(nat),
    RepeatedKey(nat, Seq<char>),
}

impl View for WriteError {
    type V = WriteFault;

    open spec fn view(&self) -> WriteFault {
        match self {
            WriteError::Malformed => WriteFault::Malformed,
            WriteError::EmptyBatch => WriteFault::EmptyBatch,
            WriteError::NotARecord { index } => WriteFault::NotARecord(*index as nat),
            WriteError::NoKey { index } => WriteFault::NoKey(*index as nat),
            WriteError::NoFields { index } => WriteFault::NoFields(*index as nat),
            WriteError::RepeatedKey { index, key } => WriteFault::RepeatedKey(
                *index as nat,
                key@,
            ),
        }
    }
}

/// What is told of a refused batch.
pub open spec fn write_text(f: WriteFault) -> Seq<char> {
    match f {
        WriteFault::Malformed => "请求体必须是含有 records 数组的 JSON 对象"@,
        WriteFault::EmptyBatch => "批次不能为空"@,
        WriteFault::NotARecord(_) => "记录必须是 JSON 对象"@,
        WriteFault::NoKey(_) => "记录缺少字符串键 key"@,
        WriteFault::NoFields(_) => "记录的 fields 必须是 JSON 对象"@,
        WriteFault::RepeatedKey(_, key) => "批次内出现重复键: "@ + key,
    }
}

impl WriteError {
    /// The HTTP status: a repeated key is a conflict.
    pub fn status(&self) -> (r: u16)
        ensures
            r == (if self@ is RepeatedKey {
                409u16
            } else {
                400u16
            }),
    {
        match self {
            WriteError::RepeatedKey { .. } => 409,
            _ => 400,
        }
    }

    /// The index of the record at fault.
    pub fn index(&self) -> (r: Option<usize>)
        ensures
            match self@ {
                WriteFault::NotARecord(i) => r == Some(i as usize),
                WriteFault::NoKey(i) => r == Some(i as usize),
                WriteFault::NoFields(i) => r == Some(i as usize),
                WriteFault::RepeatedKey(i, _) => r == Some(i as usize),
                _ => r is None,
            },
    {
        match self {
            WriteError::NotARecord { index } => Some(*index),
            WriteError::NoKey { index } => Some(*index),
            WriteError::NoFields { index } => Some(*index),
            WriteError::RepeatedKey { index, .. } => Some(*index),
            _ => None,
        }
    }

    /// What is told of the error.
    pub fn message(&self) -> (r: String)
        ensures
            r@ == write_text(self@),
    {
        match self {
            WriteError::Malformed => "请求体必须是含有 records 数组的 JSON 对象".to_owned(),
            WriteError::EmptyBatch => "批次不能为空".to_owned(),
            WriteError::NotARecord { .. } => "记录必须是 JSON 对象".to_owned(),
            WriteError::NoKey { .. } => "记录缺少字符串键 key".to_owned(),
            WriteError::NoFields { .. } => "记录的 fields 必须是 JSON 对象".to_owned(),
            WriteError::RepeatedKey { key, .. } => join("批次内出现重复键: ", key.as_str()),
        }
    }
}

/// The key and the fields of an item of a batch.
pub open spec fn record_at(s: Seq<Doc>, i: int) -> (Seq<char>, Doc) {
    let m = s[i]->Object_0;
    (value::text_entry(m, "key"@)->0, value::entry(m, "fields"@)->0)
}

/// The keys and fields of all items of a batch.
pub open spec fn records_in(s: Seq<Doc>) -> Batch {
    Seq::new(s.len(), |i: int| record_at(s, i))
}

/// Looks for the faults of the items of a batch one by one.
pub open spec fn item_faults(s: Seq<Doc>) -> spec_fn(nat) -> Option<WriteFault> {
    |i: nat|
        {
            let m = s[i as int]->Object_0;
            if !(s[i as int] is Object) {
                Some(WriteFault::NotARecord(i))
            } else if value::text_entry(m, "key"@) is None {
                Some(WriteFault::NoKey(i))
            } else if !(value::entry(m, "fields"@) matches Some(Tree::Object(_))) {
                Some(WriteFault::NoFields(i))
            } else if rows::ids_of(records_in(s)).take(i as int).contains(
                record_at(s, i as int).0,
            ) {
                Some(WriteFault::RepeatedKey(i, record_at(s, i as int).0))
            } else {
                None
            }
        }
}

/// What a request to write is read as.
pub open spec fn read_batch(payload: Doc) -> Result<Batch, WriteFault> {
    match payload {
        Tree::Object(m) => match value::entry(m, "records"@) {
            Some(Tree::List(s)) => if s.len() == 0 {
                Err(WriteFault::EmptyBatch)
            } else {
                match first::first_some(s.len(), item_faults(s)) {
                    Some(f) => Err(f),
                    None => Ok(records_in(s)),
                }
            },
            _ => Err(WriteFault::Malformed),
        },
        _ => Err(WriteFault::Malformed),
    }
}

/// The store after a batch.
pub open spec fn after_write(h: Held, b: Batch) -> Held {
    Held { dataset: rows::overlay(h.dataset, b), ..h }
}

/// The store after a version was saved.
pub open spec fn after_save(h: Held) -> Held {
    Held { snapshots: h.snapshots.push(h.dataset), ..h }
}

/// Checks the whole batch of a request.
pub fn parse_batch(payload: &Json) -> (r: Result<Vec<(String, SortedMap<Json>)>, WriteError>)
    requires
        json::json_wf(*payload),
    ensures
        match r {
            Ok(v) => read_batch(payload@) == Ok::<Batch, WriteFault>(journal::batch_docs(v@))
                && v@.len() > 0 && forall|i: int|
                0 <= i < v@.len() ==> json::map_wf((#[trigger] v@[i]).1),
            Err(e) => read_batch(payload@) == Err::<Batch, WriteFault>(e@),
        },
{
    let m = match as_object(payload) {
        Some(m) => m,
        None => {
            return Err(WriteError::Malformed);
        },
    };
    let field = match get(m, "records") {
        Some(field) => field,
        None => {
            return Err(WriteError::Malformed);
        },
    };
    let array = match as_array(field) {
        Some(array) => array,
        None => {
            return Err(WriteError::Malformed);
        },
    };
    if array.len() == 0 {
        return Err(WriteError::EmptyBatch);
    }
    let mut batch: Vec<(String, SortedMap<Json>)> = Vec::new();
    let mut seen: SortedMap<bool> = SortedMap::new();
    let ghost s = json::list_docs(array@);
    let ghost f = item_faults(s);
    let ghost b = records_in(s);
    let ghost ids = rows::ids_of(b);
    assert(ids.take(0) =~= Seq::empty());
    for i in 0..array.len()
        invariant
            forall|j: int| 0 <= j < array@.len() ==> json::json_wf(#[trigger] array@[j]),
            s == json::list_docs(array@),
            s.len() > 0,
            f == item_faults(s),
            b == records_in(s),
            ids == rows::ids_of(b),
            payload@ is Object,
            value::entry(payload@->Object_0, "records"@) == Some(Tree::List(s)),
            batch@.len() == i,
            forall|j: int| 0 <= j < i ==> json::map_wf((#[trigger] batch@[j]).1),
            forall|j: int|
                0 <= j < i ==> (
                    (#[trigger] batch@[j]).0@,
                    Tree::<Seq<char>>::Object(json::map_docs(batch@[j].1@)),
                ) == b[j],
            seen.wf(),
            forall|k: Seq<char>| #[trigger]
                seen@.contains_key(k) <==> ids.take(i as int).contains(k),
            first::first_some(i as nat, f) is None,
    {
        let ghost front = ids.take(i as int);
        proof {
            assert(s[i as int] == array@[i as int]@);
            assert(json::json_wf(array@[i as int]));
            if f(i as nat) is Some {
                first::lemma_first_stays(s.len(), (i + 1) as nat, f);
            }
        }
        let record = match as_object(&array[i]) {
            Some(record) => record,
            None => {
                return Err(WriteError::NotARecord { index: i });
            },
        };
        let key = match get_text(record, "key") {
            Some(key) => key,
            None => {
                return Err(WriteError::NoKey { index: i });
            },
        };
        let fields = match get(record, "fields") {
            Some(fields) => as_object(fields),
            None => None,
        };
        let fields = match fields {
            Some(fields) => fields,
            None => {
                return Err(WriteError::NoFields { index: i });
            },
        };
        let before = seen.insert(key.clone(), true);
        if before.is_some() {
            assert(front.contains(ids[i as int]));
            return Err(WriteError::RepeatedKey { index: i, key: key.clone() });
        }
        batch.push((key.clone(), copy_map(fields)));
        proof {
            assert(ids[i as int] == key@);
            let more = ids.take(i + 1);
            assert forall|k: Seq<char>| #[trigger] seen@.contains_key(k) <==> more.contains(k) by {
                sorted_map::lemma_taken_key(ids, i as int, k);
            }
        }
    }
    assert(journal::batch_docs(batch@) =~= b);
    Ok(batch)
}

/// How many records a batch wrote, and how many there are then.
#[derive(Debug)]
pub struct Written {
    pub written: usize,
    pub total: usize,
}

/// Writes a checked batch.
pub fn write_batch(store: &mut DataStore, batch: &Vec<(String, SortedMap<Json>)>) -> (r: Written)
    requires
        old(store).wf(),
        forall|i: int| 0 <= i < batch@.len() ==> json::map_wf((#[trigger] batch@[i]).1),
    ensures
        final(store).wf(),
        final(store)@ == after_write(old(store)@, journal::batch_docs(batch@)),
        r.written == batch@.len(),
        r.total == final(store)@.dataset.dom().len(),
{
    let ghost start = store@;
    let ghost b = journal::batch_docs(batch@);
    assert(b.take(0) =~= Seq::empty());
    for i in 0..batch.len()
        invariant
            forall|j: int| 0 <= j < batch@.len() ==> json::map_wf((#[trigger] batch@[j]).1),
            b == journal::batch_docs(batch@),
            store.wf(),
            store@.snapshots == start.snapshots,
            store@.dataset == rows::overlay(start.dataset, b.take(i as int)),
    {
        proof {
            assert(b.take(i + 1).drop_last() =~= b.take(i as int));
            assert(json::map_wf(batch@[i as int].1));
        }
        let ghost before = store.records;
        let fields = object(copy_map(&batch[i].1));
        let ghost v = fields;
        store.records.insert(batch[i].0.clone(), fields);
        proof {
            json::lemma_map_insert_wf(before, store.records, batch@[i as int].0@, v);
        }
    }
    proof {
        assert(b.take(batch@.len() as int) =~= b);
        sorted_map::lemma_len(store.records);
        assert(store@.dataset.dom() =~= store.records@.dom());
    }
    Written { written: batch.len(), total: store.records.len() }
}

/// Reads the batch of a request body; a body that is no JSON text is malformed.
pub fn read_request(body: &[u8]) -> (r: Result<Vec<(String, SortedMap<Json>)>, WriteError>)
    ensures
        ({
            let want = match input::parsed(body@) {
                Some(payload) => read_batch(payload),
                None => Err(WriteFault::Malformed),
            };
            match r {
                Ok(v) => want == Ok::<Batch, WriteFault>(journal::batch_docs(v@)) && v@.len() > 0
                    && forall|i: int| 0 <= i < v@.len() ==> json::map_wf((#[trigger] v@[i]).1),
                Err(e) => want == Err::<Batch, WriteFault>(e@),
            }
        }),
{
    match read_json(body) {
        Some(payload) => parse_batch(&payload),
        None => Err(WriteError::Malformed),
    }
}

/// A version that was saved, and how many records it has.
#[derive(Debug)]
pub struct Saved {
    pub version: u64,
    pub total: usize,
}

/// The version that is saved next.
pub fn next_version(store: &DataStore) -> (r: u64)
    requires
        store@.snapshots.len() < u64::MAX,
    ensures
        r == store@.snapshots.len() + 1,
{
    let n: u64 = store.snapshots.len() as u64;
    n + 1
}

/// Saves the current records as the next version.
pub fn save_version(store: &mut DataStore) -> (r: Saved)
    requires
        old(store).wf(),
        old(store)@.snapshots.len() < u64::MAX,
    ensures
        final(store).wf(),
        final(store)@ == after_save(old(store)@),
        r.version == old(store)@.snapshots.len() + 1,
        r.total == old(store)@.dataset.dom().len(),
{
    let ghost start = store@;
    let ghost before = store.snapshots@;
    let version: u64 = next_version(store);
    let records = copy_map(&store.records);
    proof {
        sorted_map::lemma_len(records);
        assert(start.dataset.dom() =~= records@.dom()) by {
            assert(json::map_docs(records@).dom() =~= records@.dom());
        }
    }
    let total: usize = records.len();
    store.snapshots.push(Snapshot { version, records });
    proof {
        assert(persist::saved_docs(store.snapshots@) =~= start.snapshots.push(start.dataset));
        assert forall|i: int| 0 <= i < store.snapshots@.len() implies json::map_wf(
            (#[trigger] store.snapshots@[i]).records,
        ) && store.snapshots@[i].version == i + 1 by {
            if i < before.len() {
                assert(store.snapshots@[i] == before[i]);
            }
        }
    }
    Saved { version, total }
}

/// Why a version cannot be read.
#[derive(Debug)]
pub enum ReadError {
    NotAVersion,
    NoVersion { version: String },
    NoKey { version: String, key: String },
}

/// Why a version cannot be read, as a mathematical value.
pub enum ReadFault {
    NotAVersion,
    NoVersion(Seq<char>),
    NoKey(Seq<char>, Seq<char>),
}

impl View for ReadError {
    type V = ReadFault;

    open spec fn view(&self) -> ReadFault {
        match self {
            ReadError::NotAVersion => ReadFault::NotAVersion,
            ReadError::NoVersion { version } => ReadFault::NoVersion(version@),
            ReadError::NoKey { version, key } => ReadFault::NoKey(version@, key@),
        }
    }
}

/// What is told of a version that cannot be read.
pub open spec fn read_text(f: ReadFault) -> Seq<char> {
    match f {
        ReadFault::NotAVersion => "version 必须是正整数"@,
        ReadFault::NoVersion(v) => "版本 "@ + v + " 不存在或尚未保存"@,
        ReadFault::NoKey(v, k) => "版本 "@ + v + " 中不存在键: "@ + k,
    }
}

impl ReadError {
    /// The HTTP status.
    pub fn status(&self) -> (r: u16)
        ensures
            r == (if self@ is NotAVersion {
                400u16
            } else {
                404u16
            }),
    {
        match self {
            ReadError::NotAVersion => 400,
            _ => 404,
        }
    }

    /// What is told of the error.
    pub fn message(&self) -> (r: String)
        ensures
            r@ == read_text(self@),
    {
        match self {
            ReadError::NotAVersion => "version 必须是正整数".to_owned(),
            ReadError::NoVersion { version } => join(
                join("版本 ", version.as_str()).as_str(),
                " 不存在或尚未保存",
            ),
            ReadError::NoKey { version, key } => join(
                join(join("版本 ", version.as_str()).as_str(), " 中不存在键: ").as_str(),
                key.as_str(),
            ),
        }
    }
}

/// The number that a version parameter stands for: a positive decimal number.
pub open spec fn version_number(version: Option<Seq<char>>) -> Option<nat> {
    match version {
        Some(s) => if s.len() > 0 && numeral::all_digits(s) && numeral::dec_value(s) > 0 {
            Some(numeral::dec_value(s))
        } else {
            None
        },
        None => None,
    }
}

/// What is read of a version, and why it cannot be read.
pub open spec fn read_version(h: Held, version: Option<Seq<char>>) -> Result<(nat, Rows), ReadFault> {
    match version_number(version) {
        None => Err(ReadFault::NotAVersion),
        Some(n) => if n <= h.snapshots.len() {
            Ok((n, h.snapshots[n - 1]))
        } else {
            Err(ReadFault::NoVersion(version->0))
        },
    }
}

/// The text of an optional reference.
pub open spec fn ref_text(s: Option<&str>) -> Option<Seq<char>> {
    match s {
        Some(v) => Some(v@),
        None => None,
    }
}

/// Looks up a saved version.
pub fn read_snapshot<'a>(store: &'a DataStore, version: Option<&str>) -> (r: Result<
    &'a Snapshot,
    ReadError,
>)
    requires
        store.wf(),
    ensures
        match r {
            Ok(s) => json::map_wf(s.records) && read_version(store@, ref_text(version)) == Ok::<
                (nat, Rows),
                ReadFault,
            >((s.version as nat, json::map_docs(s.records@))),
            Err(e) => read_version(store@, ref_text(version)) == Err::<(nat, Rows), ReadFault>(
                e@,
            ),
        },
{
    let text = match version {
        Some(text) => text,
        None => {
            return Err(ReadError::NotAVersion);
        },
    };
    let chars = chars_of(text);
    if chars.len() == 0 || !are_digits(chars.as_slice()) {
        return Err(ReadError::NotAVersion);
    }
    let n: u64 = match read_decimal(chars.as_slice()) {
        Some(n) => n,
        None => {
            assert(store.snapshots.len() <= u64::MAX);
            return Err(ReadError::NoVersion { version: text.to_owned() });
        },
    };
    if n == 0 {
        return Err(ReadError::NotAVersion);
    }
    let count: usize = store.snapshots.len();
    if n > count as u64 {
        return Err(ReadError::NoVersion { version: text.to_owned() });
    }
    let i: usize = (n - 1) as usize;
    assert(store.snapshots@[i as int].version == n);
    Ok(&store.snapshots[i])
}

/// Looks up one record of a saved version.
pub fn read_record<'a>(store: &'a DataStore, version: Option<&str>, key: &str) -> (r: Result<
    &'a Json,
    ReadError,
>)
    requires
        store.wf(),
    ensures
        match read_version(store@, ref_text(version)) {
            Err(f) => r is Err && r->Err_0@ == f,
            Ok((n, records)) => if records.contains_key(key@) {
                r is Ok && r->Ok_0@ == records[key@] && json::json_wf(*r->Ok_0)
            } else {
                r is Err && r->Err_0@ == ReadFault::NoKey(numeral::dec_text(n), key@)
            },
        },
{
    let s = match read_snapshot(store, version) {
        Ok(s) => s,
        Err(e) => {
            return Err(e);
        },
    };
    match get(&s.records, key) {
        Some(fields) => Ok(fields),
        None => Err(
            ReadError::NoKey { version: decimal(s.version), key: key.to_owned() },
        ),
    }
}

/// A batch, and a save, do to the store what the log records of them; so what
/// was committed and what is held stay the same.
pub proof fn law_store_follows_log(ops: Seq<journal::Op>, b: Batch)
    ensures
        journal::held(ops.push(journal::Op::Write(b))) == after_write(journal::held(ops), b),
        journal::held(ops.push(journal::Op::Save(b))) == after_save(journal::held(ops)),
{
    assert(ops.push(journal::Op::Write(b)).drop_last() =~= ops);
    assert(ops.push(journal::Op::Save(b)).drop_last() =~= ops);
}

/// After a batch each of its keys holds what the batch gave it, and every other
/// record is as it was.
pub proof fn law_batch_overwrites(h: Held, payload: Doc, i: int, other: Seq<char>)
    requires
        read_batch(payload) is Ok,
    ensures
        ({
            let b = read_batch(payload)->Ok_0;
            let after = after_write(h, b).dataset;
            &&& 0 <= i < b.len() ==> after.contains_key(b[i].0) && after[b[i].0] == b[i].1
            &&& !rows::ids_of(b).contains(other) ==> after.contains_key(other)
                == h.dataset.contains_key(other) && after[other] == h.dataset[other]
        }),
{
    lemma_batch_keys_differ(payload);
    rows::lemma_overlay(h.dataset, read_batch(payload)->Ok_0, i, other);
}

proof fn lemma_batch_keys_differ(payload: Doc)
    requires
        read_batch(payload) is Ok,
    ensures
        change::first_repeat(rows::ids_of(read_batch(payload)->Ok_0)) is None,
        persist::all_objects(read_batch(payload)->Ok_0),
{
    let s = value::entry(payload->Object_0, "records"@)->0->List_0;
    let f = item_faults(s);
    let b = records_in(s);
    let ids = rows::ids_of(b);
    first::lemma_none_found(s.len(), f);
    assert forall|i: int| 0 <= i < b.len() implies (#[trigger] b[i]).1 is Object by {
        assert(f(i as nat) is None);
    }
    assert forall|i: int, j: int| 0 <= i < j < ids.len() implies ids[i] != ids[j] by {
        assert(f(j as nat) is None);
        if ids[i] == ids[j] {
            assert(ids.take(j)[i] == ids[j]);
            assert(ids.take(j).contains(record_at(s, j).0));
        }
    }
    change::lemma_no_repeat(ids);
}

/// A saved version reads the same after any further write or save.
pub proof fn law_saved_version_stays(h: Held, b: Batch, version: Option<Seq<char>>)
    requires
        read_version(h, version) is Ok,
    ensures
        read_version(after_write(h, b), version) == read_version(h, version),
        read_version(after_save(h), version) == read_version(h, version),
{
}

/// A save is read back as the records that it saved, under the next version.
pub proof fn law_save_reads_back(h: Held)
    ensures
        read_version(after_save(h), Some(numeral::dec_text(h.snapshots.len() + 1))) == Ok::<
            (nat, Rows),
            ReadFault,
        >((h.snapshots.len() + 1, h.dataset)),
{
    numeral::lemma_dec_text(h.snapshots.len() + 1);
}

/// A batch that is read has records with objects as fields and different keys, so
/// its event is accepted when the log is read again.
pub proof fn law_batch_can_be_logged(payload: Doc, n: nat, path: Seq<char>)
    requires
        read_batch(payload) is Ok,
    ensures
        persist::write_fault(
            n,
            persist::EventDoc::Write { seq: n, records: read_batch(payload)->Ok_0 },
            path,
        ) is None,
{
    lemma_batch_keys_differ(payload);
    journal::law_committed_events_accepted(n, 0, read_batch(payload)->Ok_0, path);
}

/// A batch is read exactly from an object with a non-empty list at `records`, one
/// record for each item: its key is the text at `key` and its fields are the
/// object at `fields`, as they stand, and no key stands twice.
pub proof fn law_batch_is_read(payload: Doc, b: Batch)
    ensures
        read_batch(payload) == Ok::<Batch, WriteFault>(b) <==> (payload matches Tree::Object(m)
            && m.contains_key("records"@) && (m["records"@] matches Tree::List(s) && s.len() > 0
            && s.len() == b.len() && (forall|i: int|
            0 <= i < s.len() ==> ((#[trigger] s[i]) matches Tree::Object(n) && n.contains_key("key"@)
                && n["key"@] == Tree::<Seq<char>>::Text(b[i].0) && n.contains_key("fields"@)
                && n["fields"@] == b[i].1 && b[i].1 is Object)) && (forall|i: int, j: int|
            0 <= i < j < b.len() ==> (#[trigger] b[i]).0 != (#[trigger] b[j]).0))),
{
    if let Tree::Object(m) = payload {
        if let Some(Tree::List(s)) = value::entry(m, "records"@) {
            let f = item_faults(s);
            let made = records_in(s);
            let ids = rows::ids_of(made);
            first::lemma_none_found(s.len(), f);
            if read_batch(payload) == Ok::<Batch, WriteFault>(b) {
                lemma_batch_keys_differ(payload);
                change::lemma_first_repeat(ids);
                assert forall|i: int| 0 <= i < s.len() implies ((
                #[trigger] s[i]) matches Tree::Object(n) && n.contains_key("key"@) && n["key"@]
                    == Tree::<Seq<char>>::Text(b[i].0) && n.contains_key("fields"@) && n["fields"@]
                    == b[i].1 && b[i].1 is Object) by {
                    assert(f(i as nat) is None);
                    assert(made[i] == record_at(s, i));
                }
                assert forall|i: int, j: int| 0 <= i < j < b.len() implies (#[trigger] b[i]).0 != (
                #[trigger] b[j]).0 by {
                    assert(ids[i] != ids[j]);
                }
            }
            if s.len() > 0 && s.len() == b.len() && (forall|i: int|
                0 <= i < s.len() ==> ((#[trigger] s[i]) matches Tree::Object(n) && n.contains_key(
                    "key"@,
                ) && n["key"@] == Tree::<Seq<char>>::Text(b[i].0) && n.contains_key("fields"@)
                    && n["fields"@] == b[i].1 && b[i].1 is Object)) && (forall|i: int, j: int|
                0 <= i < j < b.len() ==> (#[trigger] b[i]).0 != (#[trigger] b[j]).0) {
                assert forall|i: int| 0 <= i < s.len() implies made[i] == b[i] by {
                    assert(s[i] is Object);
                    assert(made[i] == record_at(s, i));
                }
                assert(made =~= b);
                assert forall|i: nat| i < s.len() implies #[trigger] f(i) is None by {
                    assert(s[i as int] is Object);
                    let front = ids.take(i as int);
                    if front.contains(b[i as int].0) {
                        let j = choose|j: int| 0 <= j < front.len() && front[j] == b[i as int].0;
                        assert(b[j].0 != b[i as int].0);
                    }
                }
            }
        }
    }
}

/// A request that is no batch is refused: what has no list of records, what has
/// an empty one, and otherwise the first item decides that is no object, has no
/// text at `key`, has no object at `fields`, or has a key that stood before.
pub proof fn law_bad_batch(payload: Doc, n: int)
    ensures
        !(payload matches Tree::Object(m) && m.contains_key("records"@) && m["records"@] is List)
            ==> read_batch(payload) == Err::<Batch, WriteFault>(WriteFault::Malformed),
        payload matches Tree::Object(m) ==> m.contains_key("records"@) ==> (m["records"@] matches Tree::List(
            s,
        ) ==> {
            let good = forall|i: int|
                0 <= i < n ==> ((#[trigger] s[i]) matches Tree::Object(k) && k.contains_key("key"@)
                    && k["key"@] is Text && k.contains_key("fields"@) && k["fields"@] is Object);
            let apart = forall|i: int, j: int|
                0 <= i < j < n ==> (#[trigger] s[i])->Object_0["key"@] != (
                #[trigger] s[j])->Object_0["key"@];
            let item = s[n]->Object_0;
            let keyed = s[n] is Object && item.contains_key("key"@) && item["key"@] is Text;
            let whole = keyed && item.contains_key("fields"@) && item["fields"@] is Object;
            let again = exists|i: int|
                0 <= i < n && (#[trigger] s[i])->Object_0["key"@] == item["key"@];
            &&& s.len() == 0 ==> read_batch(payload) == Err::<Batch, WriteFault>(
                WriteFault::EmptyBatch,
            )
            &&& 0 <= n < s.len() && good && apart && !(s[n] is Object) ==> read_batch(payload)
                == Err::<Batch, WriteFault>(WriteFault::NotARecord(n as nat))
            &&& 0 <= n < s.len() && good && apart && s[n] is Object && !keyed ==> read_batch(payload)
                == Err::<Batch, WriteFault>(WriteFault::NoKey(n as nat))
            &&& 0 <= n < s.len() && good && apart && keyed && !whole ==> read_batch(payload) == Err::<
                Batch,
                WriteFault,
            >(WriteFault::NoFields(n as nat))
            &&& 0 <= n < s.len() && good && apart && whole && again ==> read_batch(payload) == Err::<
                Batch,
                WriteFault,
            >(WriteFault::RepeatedKey(n as nat, item["key"@]->Text_0))
        }),
{
    if let Tree::Object(m) = payload {
        if let Some(Tree::List(s)) = value::entry(m, "records"@) {
            let f = item_faults(s);
            let ids = rows::ids_of(records_in(s));
            if 0 <= n < s.len() && (forall|i: int|
                0 <= i < n ==> ((#[trigger] s[i]) matches Tree::Object(k) && k.contains_key("key"@)
                    && k["key"@] is Text && k.contains_key("fields"@) && k["fields"@] is Object)) && (
            forall|i: int, j: int|
                0 <= i < j < n ==> (#[trigger] s[i])->Object_0["key"@] != (
                #[trigger] s[j])->Object_0["key"@]) {
                assert forall|i: int| 0 <= i < n implies Tree::<Seq<char>>::Text(ids[i])
                    == (#[trigger] s[i])->Object_0["key"@] by {
                    assert(s[i] is Object);
                    assert(ids[i] == record_at(s, i).0);
                }
                assert forall|i: nat| i < n implies #[trigger] f(i) is None by {
                    assert(s[i as int] is Object);
                    let front = ids.take(i as int);
                    if front.contains(ids[i as int]) {
                        let j = choose|j: int| 0 <= j < front.len() && front[j] == ids[i as int];
                        assert(s[j]->Object_0["key"@] != s[i as int]->Object_0["key"@]);
                    }
                }
                if f(n as nat) is Some {
                    first::law_first_is_least(s.len(), f, n as nat);
                }
                let item = s[n]->Object_0;
                if exists|i: int| 0 <= i < n && (#[trigger] s[i])->Object_0["key"@] == item["key"@] {
                    let i = choose|i: int|
                        0 <= i < n && (#[trigger] s[i])->Object_0["key"@] == item["key"@];
                    if s[n] is Object && item.contains_key("key"@) && item["key"@] is Text {
                        assert(ids[n] == record_at(s, n).0);
                        assert(ids.take(n)[i] == ids[n]);
                    }
                }
            }
        }
    }
}

/// A write touches only the dataset, and a save only adds a version: the dataset
/// as it is then.
pub proof fn law_write_and_save(h: Held, b: Batch)
    ensures
        after_write(h, b).snapshots == h.snapshots,
        after_write(h, b).dataset == rows::overlay(h.dataset, b),
        after_save(h).dataset == h.dataset,
        after_save(h).snapshots == h.snapshots.push(h.dataset),
{
}

/// What a request gave a key is what a version saved then holds for it, and what
/// a key held that the request did not name, it still holds.
pub proof fn law_written_fields_are_saved(h: Held, payload: Doc, i: int, other: Seq<char>)
    requires
        read_batch(payload) is Ok,
    ensures
        ({
            let list = payload->Object_0["records"@]->List_0;
            let key = list[i]->Object_0["key"@]->Text_0;
            let saved = read_version(
                after_save(after_write(h, read_batch(payload)->Ok_0)),
                Some(numeral::dec_text(h.snapshots.len() + 1)),
            );
            &&& saved is Ok && saved->Ok_0.0 == h.snapshots.len() + 1
            &&& 0 <= i < list.len() ==> saved->Ok_0.1.contains_key(key) && saved->Ok_0.1[key]
                == list[i]->Object_0["fields"@]
            &&& (forall|j: int|
                0 <= j < list.len() ==> (#[trigger] list[j])->Object_0["key"@] != Tree::<
                    Seq<char>,
                >::Text(other)) ==> saved->Ok_0.1.contains_key(other) == h.dataset.contains_key(other)
                && saved->Ok_0.1[other] == h.dataset[other]
        }),
{
    let b = read_batch(payload)->Ok_0;
    law_batch_is_read(payload, b);
    law_save_reads_back(after_write(h, b));
    let list = payload->Object_0["records"@]->List_0;
    rows::law_overlay(h.dataset, b, i, other);
    if 0 <= i < list.len() {
        assert(list[i] is Object);
        assert forall|j: int| i < j < b.len() implies (#[trigger] b[j]).0 != b[i].0 by {
            assert(b[i].0 != b[j].0);
        }
    }
    if forall|j: int|
        0 <= j < list.len() ==> (#[trigger] list[j])->Object_0["key"@] != Tree::<Seq<char>>::Text(
            other,
        ) {
        assert forall|j: int| 0 <= j < b.len() implies (#[trigger] b[j]).0 != other by {
            assert(list[j]->Object_0["key"@] != Tree::<Seq<char>>::Text(other));
        }
    }
}

/// A version is read by its number, written in digits: the saved records with
/// that number where there are such; otherwise the text is no positive number,
/// or a number that was not saved.
pub proof fn law_versions_are_read(h: Held, text: Seq<char>)
    ensures
        read_version(h, None) == Err::<(nat, Rows), ReadFault>(ReadFault::NotAVersion),
        ({
            let number = text.len() > 0 && (forall|i: int|
                0 <= i < text.len() ==> '0' <= #[trigger] text[i] <= '9') && numeral::dec_value(text)
                > 0;
            let n = numeral::dec_value(text);
            &&& !number ==> read_version(h, Some(text)) == Err::<(nat, Rows), ReadFault>(
                ReadFault::NotAVersion,
            )
            &&& number && n <= h.snapshots.len() ==> read_version(h, Some(text)) == Ok::<
                (nat, Rows),
                ReadFault,
            >((n, h.snapshots[n - 1]))
            &&& number && n > h.snapshots.len() ==> read_version(h, Some(text)) == Err::<
                (nat, Rows),
                ReadFault,
            >(ReadFault::NoVersion(text))
        }),
{
    if numeral::all_digits(text) {
        assert forall|i: int| 0 <= i < text.len() implies '0' <= #[trigger] text[i] <= '9' by {
            assert(numeral::is_digit(text[i]));
        }
    }
}

/// What clients are told of a refusal.
pub proof fn law_told_refusals(i: nat, v: Seq<char>, k: Seq<char>)
    ensures
        write_text(WriteFault::Malformed) == "请求体必须是含有 records 数组的 JSON 对象"@,
        write_text(WriteFault::EmptyBatch) == "批次不能为空"@,
        write_text(WriteFault::NotARecord(i)) == "记录必须是 JSON 对象"@,
        write_text(WriteFault::NoKey(i)) == "记录缺少字符串键 key"@,
        write_text(WriteFault::NoFields(i)) == "记录的 fields 必须是 JSON 对象"@,
        write_text(WriteFault::RepeatedKey(i, k)) == "批次内出现重复键: "@ + k,
        read_text(ReadFault::NotAVersion) == "version 必须是正整数"@,
        read_text(ReadFault::NoVersion(v)) == "版本 "@ + v + " 不存在或尚未保存"@,
        read_text(ReadFault::NoKey(v, k)) == "版本 "@ + v + " 中不存在键: "@ + k,
{
}

/// What a store stands for is what it keeps.
pub proof fn law_store_is_what_it_keeps(s: DataStore, i: int)
    ensures
        s@.dataset == json::map_docs(s.records@),
        s@.snapshots.len() == s.snapshots@.len(),
        0 <= i < s.snapshots@.len() ==> s@.snapshots[i] == json::map_docs(
            s.snapshots@[i].records@,
        ),
        s.wf() && 0 <= i < s.snapshots@.len() ==> s.snapshots@[i].version == i + 1,
{
}

/// Refusals stand for what they tell.
pub proof fn law_refusals_stand_for(index: usize, key: String, version: String)
    ensures
        (WriteError::Malformed)@ == WriteFault::Malformed,
        (WriteError::EmptyBatch)@ == WriteFault::EmptyBatch,
        (WriteError::NotARecord { index })@ == WriteFault::NotARecord(index as nat),
        (WriteError::NoKey { index })@ == WriteFault::NoKey(index as nat),
        (WriteError::NoFields { index })@ == WriteFault::NoFields(index as nat),
        (WriteError::RepeatedKey { index, key })@ == WriteFault::RepeatedKey(index as nat, key@),
        (ReadError::NotAVersion)@ == ReadFault::NotAVersion,
        (ReadError::NoVersion { version })@ == ReadFault::NoVersion(version@),
        (ReadError::NoKey { version, key })@ == ReadFault::NoKey(version@, key@),
{
}

/// A version that a request names is the text that it gives.
pub proof fn law_named_version(s: &str)
    ensures
        ref_text(Some(s)) == Some(s@),
        ref_text(None) is None,
{
}

} // verus!
