//! Collections of records that can be frozen as numbered snapshots.
use vstd::prelude::*;

use crate::change;
use crate::input;
use crate::input::read_json;
use crate::journal;
use crate::json;
use crate::json::{copy_map, Json};
use crate::pointer;
use crate::rows;
use crate::rows::{Batch, Rows};
use crate::sorted_map;
use crate::sorted_map::SortedMap;
use crate::text;
use crate::text::is_empty;
use crate::tree::{Doc, Tree};
use crate::value;
use crate::value::{as_array, as_object, get, get_text};

verus! {

/// Why a request is refused.
#[derive(Debug)]
pub enum ApiError {
    InvalidRecords,
    SnapshotNotFound,
    InvalidSnapshotRange,
}

/// The code of a refusal.
pub open spec fn error_code(e: ApiError) -> Seq<char> {
    match e {
        ApiError::InvalidRecords => "invalid_records"@,
        ApiError::SnapshotNotFound => "snapshot_not_found"@,
        ApiError::InvalidSnapshotRange => "invalid_snapshot_range"@,
    }
}

impl ApiError {
    /// The code that is told to the client.
    pub fn code(&self) -> (r: &'static str)
        ensures
            r@ == error_code(*self),
    {
        match self {
            ApiError::InvalidRecords => "invalid_records",
            ApiError::SnapshotNotFound => "snapshot_not_found",
            ApiError::InvalidSnapshotRange => "invalid_snapshot_range",
        }
    }

    /// The HTTP status.
    pub fn status(&self) -> (r: u16)
        ensures
            r == (if *self is SnapshotNotFound {
                404u16
            } else {
                400u16
            }),
    {
        match self {
            ApiError::InvalidRecords => 400,
            ApiError::InvalidSnapshotRange => 400,
            ApiError::SnapshotNotFound => 404,
        }
    }
}

/// The live records of a collection and its snapshots, the first of which has
/// the version one.
#[derive(Debug)]
pub struct Collection {
    pub records: SortedMap<Json>,
    pub snapshots: Vec<SortedMap<Json>>,
}

/// All collections by name. A collection appears with the first write or
/// snapshot that succeeds.
#[derive(Debug)]
pub struct Store {
    pub collections: SortedMap<Collection>,
}

/// A collection as a mathematical value.
pub struct CollectionDoc {
    pub records: Rows,
    pub snapshots: Seq<Rows>,
}

/// The records of a list of snapshots.
pub open spec fn frozen_docs(v: Seq<SortedMap<Json>>) -> Seq<Rows> {
    Seq::new(v.len(), |i: int| json::map_docs(v[i]@))
}

impl View for Collection {
    type V = CollectionDoc;

    open spec fn view(&self) -> CollectionDoc {
        CollectionDoc {
            records: json::map_docs(self.records@),
            snapshots: frozen_docs(self.snapshots@),
        }
    }
}

impl View for Store {
    type V = Map<Seq<char>, CollectionDoc>;

    open spec fn view(&self) -> Map<Seq<char>, CollectionDoc> {
        self.collections@.map_values(|c: Collection| c@)
    }
}

/// A collection without records and snapshots.
pub open spec fn no_collection() -> CollectionDoc {
    CollectionDoc { records: Map::empty(), snapshots: Seq::empty() }
}

/// The collection with a name; one that does not exist is empty.
pub open spec fn collection_at(s: Map<Seq<char>, CollectionDoc>, name: Seq<char>) -> CollectionDoc {
    if s.contains_key(name) {
        s[name]
    } else {
        no_collection()
    }
}

impl Collection {
    /// Everything in the collection is in order.
    pub open spec fn wf(&self) -> bool {
        json::map_wf(self.records) && forall|i: int|
            0 <= i < self.snapshots@.len() ==> json::map_wf(#[trigger] self.snapshots@[i])
    }

    /// An empty collection.
    pub fn new() -> (r: Self)
        ensures
            r.wf(),
            r@ == no_collection(),
    {
        let r = Collection { records: SortedMap::new(), snapshots: Vec::new() };
        assert(r@.records =~= Map::empty());
        assert(r@.snapshots =~= Seq::empty());
        r
    }
}

impl Store {
    /// Everything in the store is in order.
    pub open spec fn wf(&self) -> bool {
        self.collections.wf() && forall|i: int|
            0 <= i < self.collections.entries@.len() ==> (
            #[trigger] self.collections.entries@[i]).1.wf()
    }

    /// A store without collections.
    pub fn new() -> (r: Self)
        ensures
            r.wf(),
            r@ == Map::<Seq<char>, CollectionDoc>::empty(),
    {
        let r = Store { collections: SortedMap::new() };
        assert(r@ =~= Map::empty());
        r
    }
}

/// What one item of a batch is read as: its id and its data.
pub open spec fn read_record(d: Doc) -> Option<(Seq<char>, Doc)> {
    match d {
        Tree::Object(m) => match (value::text_entry(m, "id"@), value::entry(m, "data"@)) {
            (Some(id), Some(data)) => if id.len() > 0 && data is Object {
                Some((id, data))
            } else {
                None
            },
            _ => None,
        },
        _ => None,
    }
}

/// What a request to write is read as: a list of records with different ids.
pub open spec fn read_batch(payload: Doc) -> Option<Batch> {
    match payload {
        Tree::Object(m) => match value::entry(m, "records"@) {
            Some(Tree::List(s)) => {
                let b = Seq::new(s.len(), |i: int| read_record(s[i])->0);
                if (forall|i: int| 0 <= i < s.len() ==> read_record(#[trigger] s[i]) is Some)
                    && change::first_repeat(rows::ids_of(b)) is None {
                    Some(b)
                } else {
                    None
                }
            },
            _ => None,
        },
        _ => None,
    }
}

/// The store after a batch was written to a collection.
pub open spec fn after_write(
    s: Map<Seq<char>, CollectionDoc>,
    name: Seq<char>,
    b: Batch,
) -> Map<Seq<char>, CollectionDoc> {
    let c = collection_at(s, name);
    s.insert(name, CollectionDoc { records: rows::overlay(c.records, b), ..c })
}

/// The store after a snapshot of a collection was taken.
pub open spec fn after_snapshot(s: Map<Seq<char>, CollectionDoc>, name: Seq<char>) -> Map<
    Seq<char>,
    CollectionDoc,
> {
    let c = collection_at(s, name);
    s.insert(name, CollectionDoc { snapshots: c.snapshots.push(c.records), ..c })
}

/// The snapshot of a collection with a version; the first one has the version one.
pub open spec fn snapshot_at(
    s: Map<Seq<char>, CollectionDoc>,
    name: Seq<char>,
    version: nat,
) -> Option<Rows> {
    let c = collection_at(s, name);
    if 1 <= version <= c.snapshots.len() {
        Some(c.snapshots[version - 1])
    } else {
        None
    }
}

/// Reads one item of a batch.
fn parse_record(item: &Json) -> (r: Option<(String, Json)>)
    requires
        json::json_wf(*item),
    ensures
        match r {
            Some(v) => read_record(item@) == Some((v.0@, v.1@)) && json::json_wf(v.1),
            None => read_record(item@) is None,
        },
{
    match as_object(item) {
        None => None,
        Some(m) => match (get_text(m, "id"), get(m, "data")) {
            (Some(id), Some(data)) => {
                if !is_empty(id.as_str()) && as_object(data).is_some() {
                    Some((id.clone(), data.copy()))
                } else {
                    None
                }
            },
            _ => None,
        },
    }
}

/// The keys and values of a list of pairs.
pub open spec fn pair_docs(v: Seq<(String, Json)>) -> Batch {
    Seq::new(v.len(), |i: int| (v[i].0@, v[i].1@))
}

/// Checks the whole batch of a request before anything is written.
pub fn parse_batch(payload: &Json) -> (r: Option<Vec<(String, Json)>>)
    requires
        json::json_wf(*payload),
    ensures
        match r {
            Some(v) => read_batch(payload@) == Some(pair_docs(v@)) && forall|i: int|
                0 <= i < v@.len() ==> json::json_wf((#[trigger] v@[i]).1),
            None => read_batch(payload@) is None,
        },
{
    let m = match as_object(payload) {
        Some(m) => m,
        None => {
            return None;
        },
    };
    let field = match get(m, "records") {
        Some(field) => field,
        None => {
            return None;
        },
    };
    let array = match as_array(field) {
        Some(array) => array,
        None => {
            return None;
        },
    };
    let mut batch: Vec<(String, Json)> = Vec::new();
    let mut seen: SortedMap<bool> = SortedMap::new();
    let ghost s = json::list_docs(array@);
    let ghost b = Seq::new(s.len(), |i: int| read_record(s[i])->0);
    let ghost ids = rows::ids_of(b);
    proof {
        assert(ids.take(0) =~= Seq::empty());
    }
    for i in 0..array.len()
        invariant
            forall|j: int| 0 <= j < array@.len() ==> json::json_wf(#[trigger] array@[j]),
            s == json::list_docs(array@),
            b == Seq::new(s.len(), |j: int| read_record(s[j])->0),
            ids == rows::ids_of(b),
            payload@ is Object,
            value::entry(payload@->Object_0, "records"@) == Some(Tree::List(s)),
            batch@.len() == i,
            forall|j: int| 0 <= j < i ==> json::json_wf((#[trigger] batch@[j]).1),
            forall|j: int| 0 <= j < i ==> read_record(#[trigger] s[j]) is Some,
            forall|j: int|
                0 <= j < i ==> ((#[trigger] batch@[j]).0@, batch@[j].1@) == b[j],
            seen.wf(),
            forall|k: Seq<char>| #[trigger]
                seen@.contains_key(k) <==> ids.take(i as int).contains(k),
            change::first_repeat(ids.take(i as int)) is None,
    {
        let ghost front = ids.take(i as int);
        proof {
            assert(ids.take(i + 1).drop_last() =~= front);
            assert(s[i as int] == array@[i as int]@);
        }
        let (id, data) = match parse_record(&array[i]) {
            Some(pair) => pair,
            None => {
                assert(read_record(s[i as int]) is None);
                return None;
            },
        };
        let before = seen.insert(id.clone(), true);
        if before.is_some() {
            proof {
                assert(front.contains(ids[i as int]));
                change::lemma_repeat_stays(ids, i + 1);
            }
            return None;
        }
        batch.push((id, data));
        proof {
            assert forall|k: Seq<char>| #[trigger] seen@.contains_key(k) <==> ids.take(
                i + 1,
            ).contains(k) by {
                sorted_map::lemma_taken_key(ids, i as int, k);
            }
        }
    }
    proof {
        assert(ids.take(array@.len() as int) =~= ids);
        assert(pair_docs(batch@) =~= b);
    }
    Some(batch)
}

proof fn lemma_store_insert(before: Store, after: Store, name: Seq<char>, c: Collection)
    requires
        before.wf(),
        c.wf(),
        after.collections.wf(),
        after.collections@ == before.collections@.insert(name, c),
    ensures
        after.wf(),
        after@ == before@.insert(name, c@),
{
    assert forall|i: int| 0 <= i < after.collections.entries@.len() implies (
    #[trigger] after.collections.entries@[i]).1.wf() by {
        sorted_map::lemma_map_of_entry(after.collections.entries@, i);
        let k = after.collections.entries@[i].0@;
        if k != name {
            assert(before.collections@.contains_key(k));
            sorted_map::lemma_map_of_key(before.collections.entries@, k);
        }
    }
    assert(after@ =~= before@.insert(name, c@));
}

/// Takes a collection out of the store; one that does not exist is empty.
fn take_collection(store: &mut Store, name: &str) -> (r: Collection)
    requires
        old(store).wf(),
    ensures
        final(store).wf(),
        final(store)@ == old(store)@.remove(name@),
        r.wf(),
        r@ == collection_at(old(store)@, name@),
{
    let ghost before = *store;
    let taken = store.collections.remove(name);
    proof {
        let after = *store;
        assert forall|i: int| 0 <= i < after.collections.entries@.len() implies (
        #[trigger] after.collections.entries@[i]).1.wf() by {
            sorted_map::lemma_map_of_entry(after.collections.entries@, i);
            let k = after.collections.entries@[i].0@;
            assert(before.collections@.contains_key(k));
            sorted_map::lemma_map_of_key(before.collections.entries@, k);
        }
        assert(after@ =~= before@.remove(name@));
        if before.collections@.contains_key(name@) {
            sorted_map::lemma_map_of_key(before.collections.entries@, name@);
        }
    }
    match taken {
        Some(c) => c,
        None => Collection::new(),
    }
}

/// Writes a checked batch to a collection, and makes the collection where there
/// is none. Tells how many records were written.
pub fn write_batch(store: &mut Store, collection: String, batch: Vec<(String, Json)>) -> (r: usize)
    requires
        old(store).wf(),
        forall|i: int| 0 <= i < batch@.len() ==> json::json_wf((#[trigger] batch@[i]).1),
    ensures
        final(store).wf(),
        final(store)@ == after_write(old(store)@, collection@, pair_docs(batch@)),
        r == batch@.len(),
{
    let mut c = take_collection(store, collection.as_str());
    let ghost start = c@;
    let ghost name = collection@;
    let ghost b = pair_docs(batch@);
    assert(b.take(0) =~= Seq::empty());
    for i in 0..batch.len()
        invariant
            forall|j: int| 0 <= j < batch@.len() ==> json::json_wf((#[trigger] batch@[j]).1),
            b == pair_docs(batch@),
            c.wf(),
            c@.snapshots == start.snapshots,
            c@.records == rows::overlay(start.records, b.take(i as int)),
    {
        proof {
            assert(b.take(i + 1).drop_last() =~= b.take(i as int));
            assert(json::json_wf(batch@[i as int].1));
        }
        let ghost before = c.records;
        let data = batch[i].1.copy();
        let ghost v = data;
        c.records.insert(batch[i].0.clone(), data);
        proof {
            json::lemma_map_insert_wf(before, c.records, batch@[i as int].0@, v);
        }
    }
    assert(b.take(batch@.len() as int) =~= b);
    let ghost middle = *store;
    let ghost g = c;
    store.collections.insert(collection, c);
    proof {
        lemma_store_insert(middle, *store, name, g);
        assert(store@ =~= after_write(old(store)@, name, b));
    }
    batch.len()
}

/// Writes the batch of a parsed request to a collection. A batch with any fault
/// is refused as a whole.
pub fn put_payload(store: &mut Store, collection: String, payload: &Json) -> (r: Result<
    usize,
    ApiError,
>)
    requires
        old(store).wf(),
        json::json_wf(*payload),
    ensures
        final(store).wf(),
        match r {
            Ok(n) => read_batch(payload@) is Some && n == read_batch(payload@)->0.len() && final(store)@ == after_write(old(store)@, collection@, read_batch(payload@)->0),
            Err(e) => e is InvalidRecords && read_batch(payload@) is None && *final(store) == *old(store),
        },
{
    match parse_batch(payload) {
        Some(batch) => Ok(write_batch(store, collection, batch)),
        None => Err(ApiError::InvalidRecords),
    }
}

/// Writes the batch of a request body to a collection. A body that is no JSON
/// text, and a batch with any fault, are refused as a whole.
pub fn put_records(store: &mut Store, collection: String, body: &[u8]) -> (r: Result<
    usize,
    ApiError,
>)
    requires
        old(store).wf(),
    ensures
        final(store).wf(),
        match r {
            Ok(n) => input::parsed(body@) is Some && read_batch(input::parsed(body@)->0) is Some && n
                == read_batch(input::parsed(body@)->0)->0.len() && final(store)@ == after_write(
                old(store)@,
                collection@,
                read_batch(input::parsed(body@)->0)->0,
            ),
            Err(e) => e is InvalidRecords && (input::parsed(body@) is None || read_batch(
                input::parsed(body@)->0,
            ) is None) && *final(store) == *old(store),
        },
{
    match read_json(body) {
        Some(payload) => put_payload(store, collection, &payload),
        None => Err(ApiError::InvalidRecords),
    }
}

/// Freezes the records of a collection as its next snapshot and tells its
/// version. A collection that does not exist is made, and frozen empty.
pub fn post_snapshot(store: &mut Store, collection: String) -> (r: usize)
    requires
        old(store).wf(),
    ensures
        final(store).wf(),
        final(store)@ == after_snapshot(old(store)@, collection@),
        r == collection_at(old(store)@, collection@).snapshots.len() + 1,
{
    let mut c = take_collection(store, collection.as_str());
    let ghost start = c@;
    let ghost name = collection@;
    let ghost before = c.snapshots@;
    let frozen = copy_map(&c.records);
    let ghost f = frozen;
    c.snapshots.push(frozen);
    proof {
        assert(frozen_docs(c.snapshots@) =~= start.snapshots.push(start.records));
        assert forall|i: int| 0 <= i < c.snapshots@.len() implies json::map_wf(
            #[trigger] c.snapshots@[i],
        ) by {
            if i < before.len() {
                assert(c.snapshots@[i] == before[i]);
            }
        }
    }
    let version: usize = c.snapshots.len();
    let ghost middle = *store;
    let ghost g = c;
    store.collections.insert(collection, c);
    proof {
        lemma_store_insert(middle, *store, name, g);
        assert(store@ =~= after_snapshot(old(store)@, name));
    }
    version
}

/// A version and how many records its snapshot has.
#[derive(Debug)]
pub struct VersionInfo {
    pub version: usize,
    pub record_count: usize,
}

/// Lists the versions of a collection with the numbers of their records.
pub fn list_snapshots(store: &Store, collection: &str) -> (r: Vec<VersionInfo>)
    requires
        store.wf(),
    ensures
        ({
            let c = collection_at(store@, collection@);
            &&& r@.len() == c.snapshots.len()
            &&& forall|i: int|
                0 <= i < r@.len() ==> (#[trigger] r@[i]).version == i + 1 && r@[i].record_count
                    == c.snapshots[i].dom().len()
        }),
{
    let mut r: Vec<VersionInfo> = Vec::new();
    let found = store.collections.get(collection);
    if let Some(c) = found {
        proof {
            sorted_map::lemma_map_of_key(store.collections.entries@, collection@);
            assert(c.wf());
            assert(collection_at(store@, collection@) == c@);
        }
        for i in 0..c.snapshots.len()
            invariant
                c.wf(),
                r@.len() == i,
                forall|j: int|
                    0 <= j < i ==> (#[trigger] r@[j]).version == j + 1 && r@[j].record_count
                        == c@.snapshots[j].dom().len(),
        {
            proof {
                assert(json::map_wf(c.snapshots@[i as int]));
                sorted_map::lemma_len(c.snapshots@[i as int]);
                let m = c.snapshots@[i as int];
                assert(json::map_docs(m@).dom() =~= m@.dom());
            }
            r.push(VersionInfo { version: i + 1, record_count: c.snapshots[i].len() });
        }
    }
    r
}

/// A record as it is told to the client.
#[derive(Debug)]
pub struct RecordOut {
    pub id: String,
    pub data: Json,
}

/// The ids and data of records.
pub open spec fn out_docs(v: Seq<RecordOut>) -> Batch {
    Seq::new(v.len(), |i: int| (v[i].id@, v[i].data@))
}

/// Looks up the snapshot with a version.
fn find_snapshot<'a>(store: &'a Store, collection: &str, version: usize) -> (r: Option<
    &'a SortedMap<Json>,
>)
    requires
        store.wf(),
    ensures
        match r {
            Some(m) => json::map_wf(*m) && snapshot_at(store@, collection@, version as nat) == Some(
                json::map_docs(m@),
            ),
            None => snapshot_at(store@, collection@, version as nat) is None,
        },
{
    match store.collections.get(collection) {
        None => None,
        Some(c) => {
            proof {
                sorted_map::lemma_map_of_key(store.collections.entries@, collection@);
                assert(c.wf());
                assert(collection_at(store@, collection@) == c@);
            }
            if version == 0 || version > c.snapshots.len() {
                None
            } else {
                assert(json::map_wf(c.snapshots@[version - 1]));
                Some(&c.snapshots[version - 1])
            }
        },
    }
}

/// Tells the records of a snapshot in ascending order of their ids.
pub fn get_snapshot(store: &Store, collection: &str, version: usize) -> (r: Result<
    Vec<RecordOut>,
    ApiError,
>)
    requires
        store.wf(),
    ensures
        match r {
            Ok(v) => {
                &&& snapshot_at(store@, collection@, version as nat) is Some
                &&& rows::is_listing(
                    out_docs(v@),
                    snapshot_at(store@, collection@, version as nat)->0,
                )
                &&& forall|i: int| 0 <= i < v@.len() ==> json::json_wf((#[trigger] v@[i]).data)
            },
            Err(e) => e is SnapshotNotFound && snapshot_at(
                store@,
                collection@,
                version as nat,
            ) is None,
        },
{
    let m = match find_snapshot(store, collection, version) {
        Some(m) => m,
        None => {
            return Err(ApiError::SnapshotNotFound);
        },
    };
    let mut v: Vec<RecordOut> = Vec::new();
    for i in 0..m.entries.len()
        invariant
            json::map_wf(*m),
            v@.len() == i,
            forall|j: int| 0 <= j < i ==> json::json_wf((#[trigger] v@[j]).data),
            forall|j: int|
                0 <= j < i ==> (#[trigger] v@[j]).id@ == m.entries@[j].0@ && v@[j].data@
                    == json::doc_of(m.entries@[j].1),
    {
        assert(json::json_wf(m.entries@[i as int].1));
        v.push(RecordOut { id: m.entries[i].0.clone(), data: m.entries[i].1.copy() });
    }
    proof {
        journal::lemma_listing(*m);
        assert(out_docs(v@) =~= journal::listing(*m));
    }
    Ok(v)
}

/// The ids that were added, removed or changed between two snapshots.
#[derive(Debug)]
pub struct DiffBody {
    pub from: usize,
    pub to: usize,
    pub added: Vec<String>,
    pub removed: Vec<String>,
    pub changed: Vec<String>,
}

/// Whether a list holds exactly the ids with a property, in ascending order.
pub open spec fn lists(v: Seq<String>, p: spec_fn(Seq<char>) -> bool) -> bool {
    let ks = pointer::texts(v);
    sorted_map::ascending(ks) && forall|k: Seq<char>| #[trigger] ks.contains(k) <==> p(k)
}

/// The ids that only the second rows have.
pub open spec fn only_second(a: Rows, b: Rows) -> spec_fn(Seq<char>) -> bool {
    |k: Seq<char>| b.contains_key(k) && !a.contains_key(k)
}

/// The ids that both have, with different data.
pub open spec fn both_differ(a: Rows, b: Rows) -> spec_fn(Seq<char>) -> bool {
    |k: Seq<char>| a.contains_key(k) && b.contains_key(k) && a[k] != b[k]
}

proof fn lemma_lists_step(
    before: Seq<String>,
    after: Seq<String>,
    ks: Seq<Seq<char>>,
    i: int,
    p: spec_fn(Seq<char>) -> bool,
)
    requires
        sorted_map::ascending(ks),
        0 <= i < ks.len(),
        lists(before, |k: Seq<char>| p(k) && ks.take(i).contains(k)),
        after.len() == before.len() + (if p(ks[i]) {
            1int
        } else {
            0int
        }),
        forall|j: int| 0 <= j < before.len() ==> after[j]@ == before[j]@,
        p(ks[i]) ==> after[before.len() as int]@ == ks[i],
    ensures
        lists(after, |k: Seq<char>| p(k) && ks.take(i + 1).contains(k)),
{
    let a = pointer::texts(before);
    let b = pointer::texts(after);
    let front = ks.take(i);
    let more = ks.take(i + 1);
    let had = |k: Seq<char>| p(k) && ks.take(i).contains(k);
    let has = |k: Seq<char>| p(k) && ks.take(i + 1).contains(k);
    assert forall|k: Seq<char>| more.contains(k) <==> front.contains(k) || k == ks[i] by {
        sorted_map::lemma_taken_key(ks, i, k);
    }
    if p(ks[i]) {
        assert(b =~= a.push(ks[i]));
        assert forall|x: int, y: int| 0 <= x < y < b.len() implies text::precedes(
            #[trigger] b[x],
            #[trigger] b[y],
        ) by {
            assert(a.contains(a[x]));
            assert(had(a[x]));
            assert(b[x] == a[x]);
            if y < a.len() {
                assert(b[y] == a[y]);
            } else {
                let j = choose|j: int| 0 <= j < front.len() && front[j] == a[x];
                assert(ks[j] == a[x]);
                assert(text::precedes(ks[j], ks[i]));
            }
        }
    } else {
        assert(b =~= a);
    }
    assert forall|k: Seq<char>| #[trigger] b.contains(k) <==> has(k) by {
        assert(a.contains(k) <==> had(k));
        if p(ks[i]) {
            if b.contains(k) {
                let j = choose|j: int| 0 <= j < b.len() && b[j] == k;
                if j < a.len() {
                    assert(a[j] == k);
                }
            }
            if a.contains(k) {
                let j = choose|j: int| 0 <= j < a.len() && a[j] == k;
                assert(b[j] == k);
            }
            if k == ks[i] {
                assert(b[a.len() as int] == k);
            }
        }
    }
}

/// Tells which records were added, removed or changed from one version to a
/// later one. Data are compared as they were written.
pub fn diff_snapshots(store: &Store, collection: &str, from: usize, to: usize) -> (r: Result<
    DiffBody,
    ApiError,
>)
    requires
        store.wf(),
    ensures
        ({
            let a = snapshot_at(store@, collection@, from as nat);
            let b = snapshot_at(store@, collection@, to as nat);
            match r {
                Ok(d) => {
                    &&& from <= to && a is Some && b is Some
                    &&& d.from == from && d.to == to
                    &&& lists(d.added@, only_second(a->0, b->0))
                    &&& lists(d.removed@, only_second(b->0, a->0))
                    &&& lists(d.changed@, both_differ(a->0, b->0))
                },
                Err(e) => if from > to {
                    e is InvalidSnapshotRange
                } else {
                    e is SnapshotNotFound && (a is None || b is None)
                },
            }
        }),
{
    if from > to {
        return Err(ApiError::InvalidSnapshotRange);
    }
    let first = match find_snapshot(store, collection, from) {
        Some(first) => first,
        None => {
            return Err(ApiError::SnapshotNotFound);
        },
    };
    let second = match find_snapshot(store, collection, to) {
        Some(second) => second,
        None => {
            return Err(ApiError::SnapshotNotFound);
        },
    };
    let ghost a = json::map_docs(first@);
    let ghost b = json::map_docs(second@);
    let mut added: Vec<String> = Vec::new();
    let mut removed: Vec<String> = Vec::new();
    let mut changed: Vec<String> = Vec::new();
    let ghost p = only_second(a, b);
    let ghost q = both_differ(a, b);
    let ghost ks = second.keys();
    proof {
        assert(ks.take(0) =~= Seq::empty());
        assert(pointer::texts(added@) =~= Seq::empty());
        assert(pointer::texts(changed@) =~= Seq::empty());
    }
    for i in 0..second.entries.len()
        invariant
            json::map_wf(*first),
            json::map_wf(*second),
            a == json::map_docs(first@),
            b == json::map_docs(second@),
            p == only_second(a, b),
            q == both_differ(a, b),
            ks == second.keys(),
            lists(added@, |k: Seq<char>| p(k) && ks.take(i as int).contains(k)),
            lists(changed@, |k: Seq<char>| q(k) && ks.take(i as int).contains(k)),
    {
        let ghost had_added = added@;
        let ghost had_changed = changed@;
        let id = &second.entries[i].0;
        proof {
            sorted_map::lemma_map_of_entry(second.entries@, i as int);
            assert(ks[i as int] == id@);
            assert(b.contains_key(id@) && b[id@] == second.entries@[i as int].1@);
            assert(json::json_wf(second.entries@[i as int].1));
        }
        match get(first, id.as_str()) {
            None => {
                added.push(id.clone());
            },
            Some(data) => {
                if !data.same(&second.entries[i].1) {
                    changed.push(id.clone());
                }
            },
        }
        proof {
            lemma_lists_step(had_added, added@, ks, i as int, p);
            lemma_lists_step(had_changed, changed@, ks, i as int, q);
        }
    }
    let ghost w = only_second(b, a);
    let ghost js = first.keys();
    proof {
        assert(ks.take(second.entries@.len() as int) =~= ks);
        assert(js.take(0) =~= Seq::empty());
        assert(pointer::texts(removed@) =~= Seq::empty());
        assert(lists(added@, p)) by {
            let t = pointer::texts(added@);
            let r = |k: Seq<char>| p(k) && ks.take(second.entries@.len() as int).contains(k);
            assert forall|k: Seq<char>| #[trigger] t.contains(k) <==> p(k) by {
                assert(t.contains(k) <==> r(k));
                assert(b.contains_key(k) == ks.contains(k));
            }
        }
        assert(lists(changed@, q)) by {
            let t = pointer::texts(changed@);
            let r = |k: Seq<char>| q(k) && ks.take(second.entries@.len() as int).contains(k);
            assert forall|k: Seq<char>| #[trigger] t.contains(k) <==> q(k) by {
                assert(t.contains(k) <==> r(k));
                assert(b.contains_key(k) == ks.contains(k));
            }
        }
    }
    for i in 0..first.entries.len()
        invariant
            json::map_wf(*first),
            json::map_wf(*second),
            a == json::map_docs(first@),
            b == json::map_docs(second@),
            w == only_second(b, a),
            js == first.keys(),
            lists(removed@, |k: Seq<char>| w(k) && js.take(i as int).contains(k)),
    {
        let ghost had = removed@;
        let id = &first.entries[i].0;
        proof {
            sorted_map::lemma_map_of_entry(first.entries@, i as int);
            assert(js[i as int] == id@);
            assert(a.contains_key(id@));
            assert(b.contains_key(id@) == second@.contains_key(id@));
        }
        if !second.contains_key(id.as_str()) {
            removed.push(id.clone());
        }
        proof {
            lemma_lists_step(had, removed@, js, i as int, w);
        }
    }
    proof {
        assert(js.take(first.entries@.len() as int) =~= js);
        assert(lists(removed@, w)) by {
            let t = pointer::texts(removed@);
            let r = |k: Seq<char>| w(k) && js.take(first.entries@.len() as int).contains(k);
            assert forall|k: Seq<char>| #[trigger] t.contains(k) <==> w(k) by {
                assert(t.contains(k) <==> r(k));
                assert(a.contains_key(k) == js.contains(k));
            }
        }
    }
    Ok(DiffBody { from, to, added, removed, changed })
}

/// A write changes no snapshot, of its own collection or another.
pub proof fn law_write_keeps_snapshots(
    s: Map<Seq<char>, CollectionDoc>,
    name: Seq<char>,
    b: Batch,
    other: Seq<char>,
    version: nat,
)
    ensures
        snapshot_at(after_write(s, name, b), other, version) == snapshot_at(s, other, version),
{
}

/// A new snapshot holds the live records under the next version, and changes no
/// other one.
pub proof fn law_snapshot_adds_one(
    s: Map<Seq<char>, CollectionDoc>,
    name: Seq<char>,
    other: Seq<char>,
    version: nat,
)
    ensures
        ({
            let next = collection_at(s, name).snapshots.len() + 1;
            &&& snapshot_at(after_snapshot(s, name), name, next) == Some(
                collection_at(s, name).records,
            )
            &&& other != name || version != next ==> snapshot_at(
                after_snapshot(s, name),
                other,
                version,
            ) == snapshot_at(s, other, version)
        }),
{
}

/// Something that is done to a collection: a batch is written, or its records
/// are frozen as a snapshot.
pub enum Step {
    Write { name: Seq<char>, batch: Batch },
    Freeze { name: Seq<char> },
}

/// The collections after steps done one after another.
pub open spec fn after_steps(s: Map<Seq<char>, CollectionDoc>, steps: Seq<Step>) -> Map<
    Seq<char>,
    CollectionDoc,
>
    decreases steps.len(),
{
    if steps.len() == 0 {
        s
    } else {
        let t = after_steps(s, steps.drop_last());
        match steps.last() {
            Step::Write { name, batch } => after_write(t, name, batch),
            Step::Freeze { name } => after_snapshot(t, name),
        }
    }
}

/// A snapshot stays as it is, under its version, whatever is written and frozen
/// later, in its own collection or in others.
pub proof fn law_snapshots_stay(
    s: Map<Seq<char>, CollectionDoc>,
    steps: Seq<Step>,
    n: int,
    name: Seq<char>,
    version: nat,
)
    requires
        0 <= n <= steps.len(),
        snapshot_at(after_steps(s, steps.take(n)), name, version) is Some,
    ensures
        snapshot_at(after_steps(s, steps), name, version) == snapshot_at(
            after_steps(s, steps.take(n)),
            name,
            version,
        ),
    decreases steps.len(),
{
    if n < steps.len() {
        let front = steps.drop_last();
        assert(front.take(n) =~= steps.take(n));
        law_snapshots_stay(s, front, n, name, version);
        let t = after_steps(s, front);
        match steps.last() {
            Step::Write { name: to, batch } => {
                law_write_keeps_snapshots(t, to, batch, name, version);
            },
            Step::Freeze { name: of } => {
                law_snapshot_adds_one(t, of, name, version);
            },
        }
    } else {
        assert(steps.take(n) =~= steps);
    }
}

/// Versions are given out one after another: freezing makes the next version of
/// its collection, and holds the records that are live after all steps before.
pub proof fn law_freezing_takes_next_version(
    s: Map<Seq<char>, CollectionDoc>,
    steps: Seq<Step>,
    name: Seq<char>,
)
    ensures
        ({
            let before = collection_at(after_steps(s, steps), name);
            let all = after_steps(s, steps.push(Step::Freeze { name }));
            &&& collection_at(all, name).snapshots == before.snapshots.push(before.records)
            &&& collection_at(all, name).records == before.records
        }),
{
    assert(steps.push(Step::Freeze { name }).drop_last() =~= steps);
}

/// After a write each record of the batch holds what the batch gave it, and every
/// other record is as it was.
pub proof fn law_write_overwrites(
    s: Map<Seq<char>, CollectionDoc>,
    name: Seq<char>,
    b: Batch,
    i: int,
    other: Seq<char>,
)
    requires
        change::first_repeat(rows::ids_of(b)) is None,
    ensures
        ({
            let before = collection_at(s, name).records;
            let after = collection_at(after_write(s, name, b), name).records;
            &&& 0 <= i < b.len() ==> after.contains_key(b[i].0) && after[b[i].0] == b[i].1
            &&& !rows::ids_of(b).contains(other) ==> after.contains_key(other)
                == before.contains_key(other) && after[other] == before[other]
        }),
{
    rows::lemma_overlay(collection_at(s, name).records, b, i, other);
}

/// Records are told neither added, nor removed, nor changed between two rows
/// exactly if they are the same in both.
pub proof fn law_diff_tells_all(a: Rows, b: Rows, k: Seq<char>)
    ensures
        (!only_second(a, b)(k) && !only_second(b, a)(k) && !both_differ(a, b)(k)) <==> (
        a.contains_key(k) == b.contains_key(k) && (a.contains_key(k) ==> a[k] == b[k])),
{
}

/// An item of a batch is a record exactly if it is an object with a non-empty
/// text at `id` and an object at `data`; the record is made of these two as they
/// stand.
pub proof fn law_record_is_read(d: Doc, id: Seq<char>, data: Doc)
    ensures
        read_record(d) == Some((id, data)) <==> (d matches Tree::Object(m) && m.contains_key("id"@)
            && m["id"@] == Tree::<Seq<char>>::Text(id) && id.len() > 0 && m.contains_key("data"@)
            && m["data"@] == data && data is Object),
{
}

/// A batch is read exactly from an object with a list of records at `records`,
/// one for each item and no two with the same id, each with the data that stands
/// there.
pub proof fn law_batch_is_read(payload: Doc, b: Batch)
    ensures
        read_batch(payload) == Some(b) <==> (payload matches Tree::Object(m) && m.contains_key(
            "records"@,
        ) && (m["records"@] matches Tree::List(s) && s.len() == b.len() && (forall|i: int|
            0 <= i < s.len() ==> ((#[trigger] s[i]) matches Tree::Object(n) && n.contains_key("id"@)
                && n["id"@] == Tree::<Seq<char>>::Text(b[i].0) && b[i].0.len() > 0 && n.contains_key(
                "data"@,
            ) && n["data"@] == b[i].1 && b[i].1 is Object)) && (forall|i: int, j: int|
            0 <= i < j < b.len() ==> (#[trigger] b[i]).0 != (#[trigger] b[j]).0))),
{
    let ids = rows::ids_of(b);
    change::lemma_first_repeat(ids);
    if let Tree::Object(m) = payload {
        if let Some(Tree::List(s)) = value::entry(m, "records"@) {
            let made = Seq::new(s.len(), |i: int| read_record(s[i])->0);
            if read_batch(payload) == Some(b) {
                assert forall|i: int| 0 <= i < s.len() implies read_record(#[trigger] s[i]) == Some(
                    b[i],
                ) by {
                    assert(read_record(s[i]) is Some);
                }
                assert forall|i: int| 0 <= i < s.len() implies ((
                #[trigger] s[i]) matches Tree::Object(n) && n.contains_key("id"@) && n["id"@]
                    == Tree::<Seq<char>>::Text(b[i].0) && b[i].0.len() > 0 && n.contains_key("data"@)
                    && n["data"@] == b[i].1 && b[i].1 is Object) by {
                    law_record_is_read(s[i], b[i].0, b[i].1);
                }
                assert forall|i: int, j: int| 0 <= i < j < b.len() implies (#[trigger] b[i]).0 != (
                #[trigger] b[j]).0 by {
                    assert(ids[i] != ids[j]);
                }
            }
            if s.len() == b.len() && (forall|i: int|
                0 <= i < s.len() ==> ((#[trigger] s[i]) matches Tree::Object(n) && n.contains_key(
                    "id"@,
                ) && n["id"@] == Tree::<Seq<char>>::Text(b[i].0) && b[i].0.len() > 0
                    && n.contains_key("data"@) && n["data"@] == b[i].1 && b[i].1 is Object)) && (forall|
                i: int,
                j: int,
            |
                0 <= i < j < b.len() ==> (#[trigger] b[i]).0 != (#[trigger] b[j]).0) {
                assert forall|i: int| 0 <= i < s.len() implies read_record(#[trigger] s[i]) == Some(
                    b[i],
                ) by {
                    assert(s[i] is Object);
                    law_record_is_read(s[i], b[i].0, b[i].1);
                }
                assert(made =~= b);
                assert forall|i: int, j: int| 0 <= i < j < ids.len() implies ids[i] != ids[j] by {
                    assert(b[i].0 != b[j].0);
                }
                change::lemma_no_repeat(ids);
            }
        }
    }
}

/// A collection is what is kept under its name; where nothing is kept, it is
/// empty and has no snapshots.
pub proof fn law_collection(s: Map<Seq<char>, CollectionDoc>, name: Seq<char>, version: nat, r: Rows)
    ensures
        s.contains_key(name) ==> collection_at(s, name) == s[name],
        !s.contains_key(name) ==> collection_at(s, name).records == Map::<Seq<char>, Doc>::empty()
            && collection_at(s, name).snapshots == Seq::<Rows>::empty(),
        snapshot_at(s, name, version) == Some(r) <==> s.contains_key(name) && 1 <= version
            <= s[name].snapshots.len() && s[name].snapshots[version - 1] == r,
{
}

/// A write and a snapshot make their collection where it is not there, and touch
/// no other one; a write changes no snapshot, and a snapshot no record.
pub proof fn law_only_its_collection(
    s: Map<Seq<char>, CollectionDoc>,
    name: Seq<char>,
    b: Batch,
    other: Seq<char>,
)
    ensures
        ({
            let w = after_write(s, name, b);
            let f = after_snapshot(s, name);
            &&& w.contains_key(name) && f.contains_key(name)
            &&& w[name].snapshots == collection_at(s, name).snapshots
            &&& w[name].records == rows::overlay(collection_at(s, name).records, b)
            &&& f[name].records == collection_at(s, name).records
            &&& f[name].snapshots == collection_at(s, name).snapshots.push(
                collection_at(s, name).records,
            )
            &&& other != name ==> w.contains_key(other) == s.contains_key(other) && f.contains_key(
                other,
            ) == s.contains_key(other) && w[other] == s[other] && f[other] == s[other]
        }),
{
}

/// What a request gave a record is what a snapshot taken then tells of it, and
/// what a record was that the request did not name, it still is.
pub proof fn law_written_data_is_frozen(
    s: Map<Seq<char>, CollectionDoc>,
    name: Seq<char>,
    payload: Doc,
    i: int,
    other: Seq<char>,
)
    requires
        read_batch(payload) is Some,
    ensures
        ({
            let list = payload->Object_0["records"@]->List_0;
            let id = list[i]->Object_0["id"@]->Text_0;
            let before = collection_at(s, name);
            let after = after_snapshot(after_write(s, name, read_batch(payload)->0), name);
            let told = snapshot_at(after, name, before.snapshots.len() + 1);
            &&& told is Some
            &&& 0 <= i < list.len() ==> told->0.contains_key(id) && told->0[id]
                == list[i]->Object_0["data"@]
            &&& (forall|j: int|
                0 <= j < list.len() ==> (#[trigger] list[j])->Object_0["id"@] != Tree::<
                    Seq<char>,
                >::Text(other)) ==> told->0.contains_key(other) == before.records.contains_key(other)
                && told->0[other] == before.records[other]
        }),
{
    let b = read_batch(payload)->0;
    law_batch_is_read(payload, b);
    let list = payload->Object_0["records"@]->List_0;
    let before = collection_at(s, name);
    rows::law_overlay(before.records, b, i, other);
    if 0 <= i < list.len() {
        assert(list[i] is Object);
        assert forall|j: int| i < j < b.len() implies (#[trigger] b[j]).0 != b[i].0 by {
            assert(b[i].0 != b[j].0);
        }
    }
    if forall|j: int|
        0 <= j < list.len() ==> (#[trigger] list[j])->Object_0["id"@] != Tree::<Seq<char>>::Text(
            other,
        ) {
        assert forall|j: int| 0 <= j < b.len() implies (#[trigger] b[j]).0 != other by {
            assert(list[j]->Object_0["id"@] != Tree::<Seq<char>>::Text(other));
        }
    }
}

/// The ids that are told have exactly the property that they are told for, each
/// once and in ascending order: that only the second rows have them, or that
/// both have them with different data.
pub proof fn law_ids_are_told(v: Seq<String>, a: Rows, b: Rows, k: Seq<char>)
    ensures
        lists(v, only_second(a, b)) ==> ((exists|i: int| 0 <= i < v.len() && #[trigger] v[i]@ == k)
            <==> b.contains_key(k) && !a.contains_key(k)),
        lists(v, both_differ(a, b)) ==> ((exists|i: int| 0 <= i < v.len() && #[trigger] v[i]@ == k)
            <==> a.contains_key(k) && b.contains_key(k) && a[k] != b[k]),
        lists(v, only_second(a, b)) || lists(v, both_differ(a, b)) ==> forall|i: int, j: int|
            0 <= i < j < v.len() ==> text::precedes((#[trigger] v[i])@, (#[trigger] v[j])@),
{
    let ks = pointer::texts(v);
    assert forall|i: int| 0 <= i < v.len() implies ks[i] == #[trigger] v[i]@ by {}
    if ks.contains(k) {
        let i = choose|i: int| 0 <= i < ks.len() && ks[i] == k;
        assert(v[i]@ == k);
    }
    if exists|i: int| 0 <= i < v.len() && #[trigger] v[i]@ == k {
        let i = choose|i: int| 0 <= i < v.len() && #[trigger] v[i]@ == k;
        assert(ks[i] == k);
    }
    if lists(v, only_second(a, b)) {
        assert(ks.contains(k) <==> only_second(a, b)(k));
    }
    if lists(v, both_differ(a, b)) {
        assert(ks.contains(k) <==> both_differ(a, b)(k));
    }
    if lists(v, only_second(a, b)) || lists(v, both_differ(a, b)) {
        assert forall|i: int, j: int| 0 <= i < j < v.len() implies text::precedes(
            (#[trigger] v[i])@,
            (#[trigger] v[j])@,
        ) by {
            assert(text::precedes(ks[i], ks[j]));
        }
    }
}

/// The codes that clients are told.
pub proof fn law_codes()
    ensures
        error_code(ApiError::InvalidRecords) == "invalid_records"@,
        error_code(ApiError::SnapshotNotFound) == "snapshot_not_found"@,
        error_code(ApiError::InvalidSnapshotRange) == "invalid_snapshot_range"@,
{
}

/// What a store stands for is what it keeps: every collection with all its
/// records and all its snapshots in their order.
pub proof fn law_store_is_what_it_keeps(s: Store, name: Seq<char>, i: int)
    ensures
        s@.contains_key(name) <==> s.collections@.contains_key(name),
        s.collections@.contains_key(name) ==> {
            let c = s.collections@[name];
            &&& s@[name].records == json::map_docs(c.records@)
            &&& s@[name].snapshots.len() == c.snapshots@.len()
            &&& 0 <= i < c.snapshots@.len() ==> s@[name].snapshots[i] == json::map_docs(
                c.snapshots@[i]@,
            )
        },
{
}

/// Pairs stand for their ids and their data, in their order.
pub proof fn law_pairs(v: Seq<(String, Json)>, w: Seq<RecordOut>, i: int)
    ensures
        pair_docs(v).len() == v.len() && out_docs(w).len() == w.len(),
        0 <= i < v.len() ==> pair_docs(v)[i] == (v[i].0@, v[i].1@),
        0 <= i < w.len() ==> out_docs(w)[i] == (w[i].id@, w[i].data@),
{
}

} // verus!
