//! Committing writes and saved versions to the log, and what the log promises.
use vstd::prelude::*;

use crate::change;
use crate::entries;
use crate::entries::Dataset;
use crate::event;
use crate::event::{event_name, temp_name, OpenError};
use crate::first;
use crate::json;
use crate::json::{copy_map, object, Json};
use crate::names;
use crate::persist;
use crate::persist::{
    replay, DiskRecord, EventDoc, EventPayload, Events, Restored, Snapshot,
};
use crate::rows;
use crate::rows::{Batch, Rows};
use crate::sorted_map;
use crate::sorted_map::SortedMap;
use crate::tree::{Doc, Tree};

verus! {

/// Where the log of a running instance stands. `next_seq` is the number of the
/// next write; `tmp_counter` counts the temporary files.
#[derive(Debug)]
pub struct Persist {
    pub next_seq: u64,
    pub tmp_counter: u64,
}

/// A file to be written whole: to the temporary name first, then renamed. It
/// counts as written from the renaming on.
#[derive(Debug)]
pub struct Put {
    pub event: EventPayload,
    pub temp: String,
    pub name: String,
}

/// The keys and fields of a batch.
pub open spec fn batch_docs(b: Seq<(String, SortedMap<Json>)>) -> Batch {
    Seq::new(b.len(), |i: int| (b[i].0@, Tree::Object(json::map_docs(b[i].1@))))
}

/// The records of a map, in the order of its keys.
pub open spec fn listing(m: SortedMap<Json>) -> Batch {
    Seq::new(m.entries@.len(), |i: int| (m.entries@[i].0@, json::doc_of(m.entries@[i].1)))
}

impl Persist {
    /// Goes on after the last write of a log.
    pub fn resume(max_seq: u64) -> (r: Self)
        requires
            max_seq < u64::MAX,
        ensures
            r.next_seq == max_seq + 1,
            r.tmp_counter == 0,
    {
        Persist { next_seq: max_seq + 1, tmp_counter: 0 }
    }

    /// Prepares the commit of a batch of writes. The number is used up only by
    /// `writes_committed`.
    pub fn commit_writes(&mut self, batch: &Vec<(String, SortedMap<Json>)>, process: u32) -> (r: Put)
        requires
            old(self).tmp_counter < u64::MAX,
            forall|i: int| 0 <= i < batch@.len() ==> json::map_wf((#[trigger] batch@[i]).1),
        ensures
            r.event@ == (EventDoc::Write {
                seq: old(self).next_seq as nat,
                records: batch_docs(batch@),
            }),
            r.event.wf(),
            r.name@ == names::numbered(old(self).next_seq as nat, ".json"@),
            r.temp@ == event::temp_file(process as nat, old(self).tmp_counter as nat + 1),
            final(self).next_seq == old(self).next_seq,
            final(self).tmp_counter == old(self).tmp_counter + 1,
    {
        self.tmp_counter = self.tmp_counter + 1;
        let mut records: Vec<DiskRecord> = Vec::new();
        for i in 0..batch.len()
            invariant
                forall|j: int| 0 <= j < batch@.len() ==> json::map_wf((#[trigger] batch@[j]).1),
                records@.len() == i,
                persist::records_wf(records@),
                forall|j: int|
                    0 <= j < i ==> (#[trigger] records@[j]).key@ == batch@[j].0@
                        && records@[j].fields@ == Tree::<Seq<char>>::Object(
                        json::map_docs(batch@[j].1@),
                    ),
        {
            assert(json::map_wf(batch@[i as int].1));
            let fields = object(copy_map(&batch[i].1));
            records.push(DiskRecord { key: batch[i].0.clone(), fields });
        }
        assert(persist::record_docs(records@) =~= batch_docs(batch@));
        Put {
            event: EventPayload::Write { seq: self.next_seq, records },
            temp: temp_name(process, self.tmp_counter),
            name: event_name(self.next_seq),
        }
    }

    /// Uses up the number of a write that was committed.
    pub fn writes_committed(&mut self)
        requires
            old(self).next_seq < u64::MAX,
        ensures
            final(self).next_seq == old(self).next_seq + 1,
            final(self).tmp_counter == old(self).tmp_counter,
    {
        self.next_seq = self.next_seq + 1;
    }

    /// Prepares the commit of a saved version.
    pub fn commit_snapshot(
        &mut self,
        version: u64,
        records: &SortedMap<Json>,
        process: u32,
    ) -> (r: Put)
        requires
            old(self).tmp_counter < u64::MAX,
            old(self).next_seq > 0,
            json::map_wf(*records),
        ensures
            r.event@ == (EventDoc::Snapshot {
                version: version as nat,
                last_seq: (old(self).next_seq - 1) as nat,
                records: listing(*records),
            }),
            r.event.wf(),
            r.name@ == names::numbered(version as nat, ".json"@),
            r.temp@ == event::temp_file(process as nat, old(self).tmp_counter as nat + 1),
            final(self).next_seq == old(self).next_seq,
            final(self).tmp_counter == old(self).tmp_counter + 1,
    {
        self.tmp_counter = self.tmp_counter + 1;
        let mut list: Vec<DiskRecord> = Vec::new();
        for i in 0..records.entries.len()
            invariant
                json::map_wf(*records),
                list@.len() == i,
                persist::records_wf(list@),
                forall|j: int|
                    0 <= j < i ==> (#[trigger] list@[j]).key@ == records.entries@[j].0@
                        && list@[j].fields@ == json::doc_of(records.entries@[j].1),
        {
            assert(json::json_wf(records.entries@[i as int].1));
            list.push(
                DiskRecord {
                    key: records.entries[i].0.clone(),
                    fields: records.entries[i].1.copy(),
                },
            );
        }
        assert(persist::record_docs(list@) =~= listing(*records));
        Put {
            event: EventPayload::Snapshot { version, last_seq: self.next_seq - 1, records: list },
            temp: temp_name(process, self.tmp_counter),
            name: event_name(version),
        }
    }
}

/// Restores what a log holds and goes on after its last write. The largest
/// number must be free, as the next write could have none otherwise.
pub fn reopen(events: &Events) -> (r: Result<(Dataset, Vec<Snapshot>, Persist), OpenError>)
    requires
        events.wf(),
        !events.writes@.contains_key(u64::MAX),
    ensures
        match r {
            Ok(v) => {
                let state = persist::restored(
                    persist::write_docs(events.writes@),
                    persist::snapshot_docs(events.snapshots@),
                );
                &&& state is Ok
                &&& entries::dataset_docs(v.0@) == state->Ok_0.dataset
                &&& entries::dataset_wf(v.0)
                &&& persist::saved_docs(v.1@) == state->Ok_0.snapshots
                &&& persist::saved_wf(v.1@)
                &&& v.2.next_seq == state->Ok_0.last_seq + 1
                &&& v.2.tmp_counter == 0
            },
            Err(e) => e@ is Corrupt && persist::restored(
                persist::write_docs(events.writes@),
                persist::snapshot_docs(events.snapshots@),
            ) == Err::<Restored, Seq<char>>(e@->Corrupt_0),
        },
{
    match replay(events) {
        Ok((dataset, snapshots, max_seq)) => {
            proof {
                let s = persist::write_docs(events.writes@).dom();
                assert(s =~= events.writes@.dom());
                persist::lemma_last_of(s);
            }
            Ok((dataset, snapshots, Persist::resume(max_seq)))
        },
        Err(e) => Err(e),
    }
}

/// The records of a map are listed in the order of its keys.
pub proof fn lemma_listing(m: SortedMap<Json>)
    requires
        m.wf(),
    ensures
        rows::is_listing(listing(m), json::map_docs(m@)),
{
    let b = listing(m);
    let ids = rows::ids_of(b);
    assert(ids =~= m.keys());
    rows::lemma_ascending_not_repeated(ids);
    rows::lemma_row_map(b);
    assert forall|k: Seq<char>| m@.contains_key(k) implies rows::row_map(b)[k] == json::map_docs(
        m@,
    )[k] by {
        sorted_map::lemma_map_of_key(m.entries@, k);
        let i = sorted_map::position(m.entries@, k);
        assert(b[i].0 == k);
    }
    assert(rows::row_map(b) =~= json::map_docs(m@));
}

/// Something that was committed: a batch of writes, or a saved version with its
/// records.
pub enum Op {
    Write(Batch),
    Save(Batch),
}

/// A log: its writes and its snapshots, and how many there are of each.
pub struct Log {
    pub writes: Map<u64, Batch>,
    pub snapshots: Map<u64, (u64, Batch)>,
    pub seq: nat,
    pub version: nat,
}

/// What an instance holds: its dataset and its saved versions.
pub struct Held {
    pub dataset: Rows,
    pub snapshots: Seq<Rows>,
}

/// The batches of writes among some commits, in their order.
pub open spec fn batches(ops: Seq<Op>) -> Seq<Batch>
    decreases ops.len(),
{
    if ops.len() == 0 {
        Seq::empty()
    } else {
        match ops.last() {
            Op::Write(b) => batches(ops.drop_last()).push(b),
            Op::Save(_) => batches(ops.drop_last()),
        }
    }
}

/// The records after some batches, later records replacing earlier ones.
pub open spec fn played(bs: Seq<Batch>) -> Rows
    decreases bs.len(),
{
    if bs.len() == 0 {
        Map::empty()
    } else {
        rows::overlay(played(bs.drop_last()), bs.last())
    }
}

/// Whether a batch can be committed: it has records, all of them with objects as
/// fields and no two with the same key.
pub open spec fn is_batch(b: Batch) -> bool {
    b.len() > 0 && persist::all_objects(b) && change::first_repeat(rows::ids_of(b)) is None
}

/// Whether every write is a batch that can be committed.
pub open spec fn all_batches(ops: Seq<Op>) -> bool {
    forall|i: int| 0 <= i < ops.len() ==> (#[trigger] ops[i] matches Op::Write(b) ==> is_batch(b))
}

/// Whether there are numbers for all commits, and one more for the next write.
pub open spec fn numbers_suffice(ops: Seq<Op>) -> bool {
    logged(ops).seq < u64::MAX && logged(ops).version <= u64::MAX
}

/// The log after some commits.
pub open spec fn logged(ops: Seq<Op>) -> Log
    decreases ops.len(),
{
    if ops.len() == 0 {
        Log { writes: Map::empty(), snapshots: Map::empty(), seq: 0, version: 0 }
    } else {
        let l = logged(ops.drop_last());
        match ops.last() {
            Op::Write(b) => Log {
                writes: l.writes.insert((l.seq + 1) as u64, b),
                seq: l.seq + 1,
                ..l
            },
            Op::Save(b) => Log {
                snapshots: l.snapshots.insert((l.version + 1) as u64, (l.seq as u64, b)),
                version: l.version + 1,
                ..l
            },
        }
    }
}

/// What an instance holds after some commits.
pub open spec fn held(ops: Seq<Op>) -> Held
    decreases ops.len(),
{
    if ops.len() == 0 {
        Held { dataset: Map::empty(), snapshots: Seq::empty() }
    } else {
        let h = held(ops.drop_last());
        match ops.last() {
            Op::Write(b) => Held { dataset: rows::overlay(h.dataset, b), ..h },
            Op::Save(_) => Held { snapshots: h.snapshots.push(h.dataset), ..h },
        }
    }
}

/// Whether every saved version lists the dataset at its time.
pub open spec fn faithful(ops: Seq<Op>) -> bool
    decreases ops.len(),
{
    ops.len() == 0 || (faithful(ops.drop_last()) && match ops.last() {
        Op::Write(_) => true,
        Op::Save(b) => rows::is_listing(b, held(ops.drop_last()).dataset),
    })
}

proof fn lemma_written_same(a: Map<u64, Batch>, b: Map<u64, Batch>, n: nat, k: nat)
    requires
        k <= n <= u64::MAX,
        forall|j: u64| 1 <= j <= n ==> #[trigger] a[j] == b[j],
    ensures
        persist::written(a, k) == persist::written(b, k),
    decreases k,
{
    if k > 0 {
        lemma_written_same(a, b, n, (k - 1) as nat);
        assert(a[k as u64] == b[k as u64]);
    }
}

proof fn lemma_follow_same(
    a: Map<u64, Batch>,
    b: Map<u64, Batch>,
    s: Map<u64, (u64, Batch)>,
    t: Map<u64, (u64, Batch)>,
    m: nat,
    n: nat,
    v: nat,
)
    requires
        m <= n <= u64::MAX,
        v <= u64::MAX,
        forall|j: u64| 1 <= j <= m ==> #[trigger] a[j] == b[j],
        forall|j: u64| 1 <= j <= v ==> #[trigger] s[j] == t[j],
        persist::follow(a, s, m, v) is Ok,
    ensures
        persist::follow(b, t, n, v) == persist::follow(a, s, m, v),
    decreases v,
{
    if v > 0 {
        let w = (v - 1) as nat;
        lemma_follow_same(a, b, s, t, m, n, w);
        assert(s[v as u64] == t[v as u64]);
        lemma_written_same(a, b, m, s[v as u64].0 as nat);
    }
}

proof fn lemma_log_keys(ops: Seq<Op>)
    requires
        numbers_suffice(ops),
    ensures
        forall|k: u64| #[trigger]
            logged(ops).writes.contains_key(k) <==> 1 <= k <= logged(ops).seq,
        forall|k: u64| #[trigger]
            logged(ops).snapshots.contains_key(k) <==> 1 <= k <= logged(ops).version,
    decreases ops.len(),
{
    if ops.len() > 0 {
        lemma_log_keys(ops.drop_last());
    }
}

proof fn lemma_log(ops: Seq<Op>)
    requires
        faithful(ops),
        numbers_suffice(ops),
    ensures
        ({
            let l = logged(ops);
            let h = held(ops);
            &&& l.seq == batches(ops).len()
            &&& h.dataset == persist::written(l.writes, l.seq)
            &&& h.dataset == played(batches(ops))
            &&& persist::follow(l.writes, l.snapshots, l.seq, l.version) is Ok
            &&& persist::follow(l.writes, l.snapshots, l.seq, l.version)->Ok_0.snapshots
                == h.snapshots
            &&& persist::follow(l.writes, l.snapshots, l.seq, l.version)->Ok_0.last_seq <= l.seq
            &&& h.snapshots.len() == l.version
        }),
    decreases ops.len(),
{
    if ops.len() > 0 {
        let front = ops.drop_last();
        lemma_log(front);
        let l = logged(front);
        let h = held(front);
        let m = logged(ops);
        match ops.last() {
            Op::Write(b) => {
                assert(batches(ops).drop_last() =~= batches(front));
                assert forall|j: u64| 1 <= j <= l.seq implies #[trigger] l.writes[j]
                    == m.writes[j] by {
                    assert(j != (l.seq + 1) as u64);
                }
                lemma_written_same(l.writes, m.writes, l.seq, l.seq);
                lemma_follow_same(
                    l.writes,
                    m.writes,
                    l.snapshots,
                    l.snapshots,
                    l.seq,
                    m.seq,
                    l.version,
                );
                assert(m.writes[m.seq as u64] == b);
            },
            Op::Save(b) => {
                assert forall|j: u64| 1 <= j <= l.version implies #[trigger] l.snapshots[j]
                    == m.snapshots[j] by {
                    assert(j != (l.version + 1) as u64);
                }
                lemma_follow_same(
                    l.writes,
                    l.writes,
                    l.snapshots,
                    m.snapshots,
                    l.seq,
                    l.seq,
                    l.version,
                );
                assert(m.snapshots[m.version as u64] == (l.seq as u64, b));
                let ids = rows::ids_of(b);
                assert forall|i: int, j: int| 0 <= i < j < ids.len() implies ids[i] != ids[j] by {
                    if ids[i] == ids[j] {
                        sorted_map::lemma_ascending_distinct(ids, i, j);
                    }
                }
                change::lemma_no_repeat(ids);
            },
        }
    }
}

proof fn lemma_listed_objects(b: Batch, dataset: Rows)
    requires
        rows::is_listing(b, dataset),
        persist::objects_only(dataset),
    ensures
        persist::all_objects(b),
{
    rows::lemma_ascending_not_repeated(rows::ids_of(b));
    rows::lemma_row_map(b);
    assert forall|i: int| 0 <= i < b.len() implies (#[trigger] b[i]).1 is Object by {
        let k = rows::ids_of(b)[i];
        assert(dataset.contains_key(k));
    }
}

proof fn lemma_log_objects(ops: Seq<Op>)
    requires
        faithful(ops),
        all_batches(ops),
        numbers_suffice(ops),
    ensures
        persist::objects_only(held(ops).dataset),
        forall|k: u64| #[trigger]
            logged(ops).writes.contains_key(k) ==> is_batch(logged(ops).writes[k]),
        forall|k: u64| #[trigger]
            logged(ops).snapshots.contains_key(k) ==> persist::all_objects(
                logged(ops).snapshots[k].1,
            ),
    decreases ops.len(),
{
    if ops.len() > 0 {
        let front = ops.drop_last();
        assert(all_batches(front)) by {
            assert forall|i: int| 0 <= i < front.len() implies (
            #[trigger] front[i] matches Op::Write(b) ==> is_batch(b)) by {
                assert(ops[i] == front[i]);
            }
        }
        lemma_log_objects(front);
        match ops[ops.len() - 1] {
            Op::Write(b) => {
                persist::lemma_overlay_objects(held(front).dataset, b);
            },
            Op::Save(b) => {
                lemma_listed_objects(b, held(front).dataset);
            },
        }
    }
}

/// Whatever was committed, the log restores what the instance held: the dataset
/// is the batches played in order, every saved version stands under its number
/// with the records that it was saved with, and the last write has the number
/// of batches. This holds as long as there are numbers for all of it.
pub proof fn law_log_restores(ops: Seq<Op>)
    requires
        faithful(ops),
        numbers_suffice(ops),
    ensures
        persist::restored(logged(ops).writes, logged(ops).snapshots) == Ok::<Restored, Seq<char>>(
            Restored {
                dataset: played(batches(ops)),
                snapshots: held(ops).snapshots,
                last_seq: batches(ops).len(),
            },
        ),
        held(ops).dataset == played(batches(ops)),
        held(ops).snapshots.len() == logged(ops).version,
        logged(ops).seq == batches(ops).len(),
        !logged(ops).writes.contains_key(u64::MAX),
{
    lemma_log(ops);
    lemma_log_keys(ops);
    let l = logged(ops);
    assert forall|k: u64| #[trigger] l.writes.dom().contains(k) <==> 1 <= k <= l.seq by {
        assert(l.writes.contains_key(k) <==> 1 <= k <= l.seq);
    }
    assert forall|k: u64| #[trigger] l.snapshots.dom().contains(k) <==> 1 <= k <= l.version by {
        assert(l.snapshots.contains_key(k) <==> 1 <= k <= l.version);
    }
    persist::lemma_full(l.writes.dom(), l.seq);
    persist::lemma_full(l.snapshots.dom(), l.version);
}

/// Every event of a log is accepted when it is read again: it carries the number
/// of its file, and its records are in order.
pub proof fn law_log_is_accepted(ops: Seq<Op>, k: u64, path: Seq<char>)
    requires
        faithful(ops),
        all_batches(ops),
        numbers_suffice(ops),
    ensures
        logged(ops).writes.contains_key(k) ==> persist::write_fault(
            k as nat,
            EventDoc::Write { seq: k as nat, records: logged(ops).writes[k] },
            path,
        ) is None,
        logged(ops).snapshots.contains_key(k) ==> persist::snapshot_fault(
            k as nat,
            EventDoc::Snapshot {
                version: k as nat,
                last_seq: logged(ops).snapshots[k].0 as nat,
                records: logged(ops).snapshots[k].1,
            },
            path,
        ) is None,
{
    lemma_log_objects(ops);
    let l = logged(ops);
    if l.writes.contains_key(k) {
        law_committed_events_accepted(k as nat, 0, l.writes[k], path);
    }
    if l.snapshots.contains_key(k) {
        law_committed_events_accepted(k as nat, l.snapshots[k].0 as nat, l.snapshots[k].1, path);
    }
}

proof fn lemma_submaps<V>(a: Map<u64, V>, b: Map<u64, V>, c: Map<u64, V>)
    requires
        a.submap_of(b),
        b.submap_of(c),
    ensures
        a.submap_of(c),
{
    assert forall|k: u64| #[trigger] a.dom().contains(k) implies c.dom().contains(k) && a[k]
        == c[k] by {
        assert(b.dom().contains(k));
        assert(c.dom().contains(k));
    }
}

/// A log only grows: no commit changes or removes what was committed before.
pub proof fn law_log_only_grows(ops: Seq<Op>, n: int)
    requires
        0 <= n <= ops.len(),
        numbers_suffice(ops),
    ensures
        logged(ops.take(n)).writes.submap_of(logged(ops).writes),
        logged(ops.take(n)).snapshots.submap_of(logged(ops).snapshots),
    decreases ops.len(),
{
    if n < ops.len() {
        let front = ops.drop_last();
        lemma_log_keys(front);
        law_log_only_grows(front, n);
        assert(front.take(n) =~= ops.take(n));
        let (l, m) = (logged(front), logged(ops));
        let o = logged(ops.take(n));
        assert(l.writes.submap_of(m.writes));
        assert(l.snapshots.submap_of(m.snapshots));
        lemma_submaps(o.writes, l.writes, m.writes);
        lemma_submaps(o.snapshots, l.snapshots, m.snapshots);
    } else {
        assert(ops.take(n) =~= ops);
    }
}

/// Commits are numbered one after another: a write takes the number after the
/// last one, a saved version that after the last version, with the number of the
/// last write before it.
pub proof fn law_commits_are_numbered(ops: Seq<Op>, b: Batch)
    ensures
        ({
            let l = logged(ops);
            let w = logged(ops.push(Op::Write(b)));
            let s = logged(ops.push(Op::Save(b)));
            &&& w.seq == l.seq + 1 && w.version == l.version
            &&& w.writes == l.writes.insert(w.seq as u64, b) && w.snapshots == l.snapshots
            &&& s.version == l.version + 1 && s.seq == l.seq
            &&& s.snapshots == l.snapshots.insert(s.version as u64, (l.seq as u64, b))
            &&& s.writes == l.writes
        }),
{
    assert(ops.push(Op::Write(b)).drop_last() =~= ops);
    assert(ops.push(Op::Save(b)).drop_last() =~= ops);
}

/// What was saved stays as it was, whatever is committed later; versions are
/// numbered one after another.
pub proof fn law_saved_versions_stay(ops: Seq<Op>, n: int)
    requires
        0 <= n <= ops.len(),
    ensures
        held(ops.take(n)).snapshots.len() <= held(ops).snapshots.len(),
        held(ops).snapshots.take(held(ops.take(n)).snapshots.len() as int) == held(
            ops.take(n),
        ).snapshots,
    decreases ops.len() - n,
{
    let now = held(ops.take(n)).snapshots;
    if n < ops.len() {
        law_saved_versions_stay(ops, n + 1);
        assert(ops.take(n + 1).drop_last() =~= ops.take(n));
        let next = held(ops.take(n + 1)).snapshots;
        let all = held(ops).snapshots;
        assert(next.take(now.len() as int) =~= now);
        assert(all.take(now.len() as int) =~= all.take(next.len() as int).take(now.len() as int));
    } else {
        assert(ops.take(n) =~= ops);
        assert(now.take(now.len() as int) =~= now);
    }
}

/// A batch of records with objects as fields and different keys is accepted when
/// its event is read again; so is every snapshot of such records.
pub proof fn law_committed_events_accepted(n: nat, last_seq: nat, b: Batch, path: Seq<char>)
    requires
        persist::all_objects(b),
    ensures
        b.len() > 0 && change::first_repeat(rows::ids_of(b)) is None ==> persist::write_fault(
            n,
            EventDoc::Write { seq: n, records: b },
            path,
        ) is None,
        persist::snapshot_fault(
            n,
            EventDoc::Snapshot { version: n, last_seq, records: b },
            path,
        ) is None,
{
    let ids = rows::ids_of(b);
    let f = persist::record_faults(b, path);
    assert forall|i: nat| i < b.len() implies #[trigger] f(i) is None by {
        assert(b[i as int].1 is Object);
    }
    first::lemma_none_found(b.len(), f);
    if change::first_repeat(ids) is None {
        change::lemma_first_repeat(ids);
        let g = persist::batch_faults(b, path);
        assert forall|i: nat| i < b.len() implies #[trigger] g(i) is None by {
            assert(b[i as int].1 is Object);
            let front = ids.take(i as int);
            if front.contains(b[i as int].0) {
                let j = choose|j: int| 0 <= j < front.len() && front[j] == b[i as int].0;
                assert(ids[j] == ids[i as int]);
            }
        }
        first::lemma_none_found(b.len(), g);
    }
}

/// Batches and listings stand for their keys and fields, in their order.
pub proof fn law_batches(b: Seq<(String, SortedMap<Json>)>, m: SortedMap<Json>, i: int)
    ensures
        batch_docs(b).len() == b.len() && listing(m).len() == m.entries@.len(),
        0 <= i < b.len() ==> batch_docs(b)[i] == (
            b[i].0@,
            Tree::<Seq<char>>::Object(json::map_docs(b[i].1@)),
        ),
        0 <= i < m.entries@.len() ==> listing(m)[i] == (
            m.entries@[i].0@,
            json::doc_of(m.entries@[i].1),
        ),
{
}

/// Nothing was committed, held or played at first; a write adds its batch and
/// is played over what was there, and a save adds a version that is what was
/// there.
pub proof fn law_one_more_commit(ops: Seq<Op>, b: Batch)
    ensures
        batches(Seq::empty()) == Seq::<Batch>::empty() && played(Seq::empty()) == Map::<
            Seq<char>,
            Doc,
        >::empty(),
        held(Seq::empty()) == (Held { dataset: Map::empty(), snapshots: Seq::empty() }),
        batches(ops.push(Op::Write(b))) == batches(ops).push(b),
        batches(ops.push(Op::Save(b))) == batches(ops),
        played(batches(ops).push(b)) == rows::overlay(played(batches(ops)), b),
        held(ops.push(Op::Write(b))) == (Held {
            dataset: rows::overlay(held(ops).dataset, b),
            snapshots: held(ops).snapshots,
        }),
        held(ops.push(Op::Save(b))) == (Held {
            dataset: held(ops).dataset,
            snapshots: held(ops).snapshots.push(held(ops).dataset),
        }),
        faithful(Seq::empty()),
        faithful(ops.push(Op::Write(b))) == faithful(ops),
        faithful(ops.push(Op::Save(b))) <==> faithful(ops) && sorted_map::ascending(rows::ids_of(b))
            && rows::row_map(b) == held(ops).dataset,
{
    assert(ops.push(Op::Write(b)).drop_last() =~= ops);
    assert(ops.push(Op::Save(b)).drop_last() =~= ops);
    assert(batches(ops).push(b).drop_last() =~= batches(ops));
}

} // verus!
