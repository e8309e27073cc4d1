//! Entry files: one for each saved version, recovered one by one.
use vstd::prelude::*;

use crate::fault::join;
use crate::frame;
use crate::frame::frame;
use crate::json;
use crate::json::{object, Json};
use crate::names;
use crate::names::{contains, numbered_name, read_number, starts_with};
use crate::numeral;
use crate::numeral::decimal;
use crate::rows::Rows;
use crate::sorted_map;
use crate::sorted_map::{reversed, SortedMap};
use crate::text;
use crate::tree::{Doc, Tree};

verus! {

/// Records with the members of their fields, by key.
pub type Dataset = SortedMap<SortedMap<Json>>;

/// Records with their fields as JSON objects, by key.
pub type Records = SortedMap<Json>;

/// The records of a dataset.
pub open spec fn dataset_docs(d: Map<Seq<char>, SortedMap<Json>>) -> Rows {
    d.map_values(|m: SortedMap<Json>| Tree::Object(json::map_docs(m@)))
}

/// Whether a dataset and everything in it is in order.
pub open spec fn dataset_wf(d: Dataset) -> bool {
    d.wf() && forall|i: int| 0 <= i < d.entries@.len() ==> json::map_wf((#[trigger] d.entries@[i]).1)
}

/// What an entry file holds: a version, its snapshot, and the dataset at the
/// time it was saved.
#[derive(Debug)]
pub struct Entry {
    pub version: u64,
    pub snapshot: Dataset,
    pub dataset: Dataset,
}

/// What an entry file holds, as a mathematical value.
pub struct EntryDoc {
    pub version: nat,
    pub snapshot: Rows,
    pub dataset: Rows,
}

impl View for Entry {
    type V = EntryDoc;

    open spec fn view(&self) -> EntryDoc {
        EntryDoc {
            version: self.version as nat,
            snapshot: dataset_docs(self.snapshot@),
            dataset: dataset_docs(self.dataset@),
        }
    }
}

impl Entry {
    /// Both datasets are in order.
    pub open spec fn wf(&self) -> bool {
        dataset_wf(self.snapshot) && dataset_wf(self.dataset)
    }
}

/// A recovered snapshot.
#[derive(Debug)]
pub struct LoadedSnapshot {
    pub version: u64,
    pub records: Records,
}

/// What is recovered at the start.
#[derive(Debug)]
pub struct Loaded {
    pub snapshots: Vec<LoadedSnapshot>,
    pub dataset: Dataset,
    pub next_version: u64,
}

/// The name of the entry file of a version.
pub open spec fn entry_file(version: nat) -> Seq<char> {
    names::numbered(version, ".vde"@)
}

/// The version of an entry file, by its name.
pub open spec fn entry_version(name: Seq<char>) -> Option<nat> {
    names::number_in(name, ".vde"@)
}

/// The name under which an entry is written before it is committed.
pub open spec fn temp_file(version: nat, process: nat, counter: nat) -> Seq<char> {
    "."@ + entry_file(version) + ".tmp-"@ + numeral::dec_text(process) + "-"@ + numeral::dec_text(
        counter,
    )
}

/// Whether a file is left over from a write that was never committed.
pub open spec fn is_leftover(name: Seq<char>) -> bool {
    names::begins_with(name, "."@) && names::contains_text(name, ".vde.tmp-"@)
}

/// Writes the name of the entry file of a version.
pub fn entry_name(version: u64) -> (r: String)
    ensures
        r@ == entry_file(version as nat),
{
    numbered_name(version, ".vde")
}

/// Reads the version of an entry file from its name.
pub fn version_from_name(name: &str) -> (r: Option<u64>)
    ensures
        match r {
            Some(v) => entry_version(name@) == Some(v as nat),
            None => entry_version(name@) is None,
        },
{
    read_number(name, ".vde")
}

/// Writes the name under which an entry is written before it is committed.
pub fn temp_name(version: u64, process: u32, counter: u64) -> (r: String)
    ensures
        r@ == temp_file(version as nat, process as nat, counter as nat),
{
    let name = join(".", entry_name(version).as_str());
    let name = join(name.as_str(), ".tmp-");
    let name = join(name.as_str(), decimal(process as u64).as_str());
    let name = join(name.as_str(), "-");
    join(name.as_str(), decimal(counter).as_str())
}

/// Whether a file is left over from a write that was never committed.
pub fn is_stale_temp(name: &str) -> (r: bool)
    ensures
        r == is_leftover(name@),
{
    starts_with(name, ".") && contains(name, ".vde.tmp-")
}

/// What an uncommitted write leaves behind is recognised as such, and never
/// taken for an entry.
pub proof fn law_temp_never_an_entry(version: u64, process: u32, counter: u64)
    ensures
        is_leftover(temp_file(version as nat, process as nat, counter as nat)),
        entry_version(temp_file(version as nat, process as nat, counter as nat)) is None,
{
    let name = temp_file(version as nat, process as nat, counter as nat);
    let part = ".vde.tmp-"@;
    reveal_strlit(".");
    reveal_strlit("-");
    reveal_strlit(".vde");
    reveal_strlit(".tmp-");
    reveal_strlit(".vde.tmp-");
    numeral::lemma_twenty_digits();
    numeral::lemma_dec_fixed(version as nat, 20);
    assert(part =~= ".vde"@ + ".tmp-"@);
    assert(name.take(1) =~= "."@);
    assert(name.subrange(21, 21int + part.len()) =~= part);
    if name.len() >= 20 {
        assert(name.take(20)[0] == '.');
        assert(!numeral::is_digit(name.take(20)[0]));
    }
}

/// Committed entry files sort like their versions, and the version is read back
/// from the name.
pub proof fn law_entry_names(v: u64, w: u64)
    ensures
        entry_version(entry_file(v as nat)) == Some(v as nat),
        text::precedes(entry_file(v as nat), entry_file(w as nat)) <==> v < w,
{
    names::law_number_round_trip(v, ".vde"@);
    names::law_names_sort_by_number(v, w, ".vde"@);
}

/// The entry files among the names of a directory, with their versions.
pub open spec fn entries_among(files: Seq<String>) -> Map<Seq<char>, u64> {
    Map::new(
        |name: Seq<char>|
            entry_version(name) is Some && exists|i: int|
                0 <= i < files.len() && #[trigger] files[i]@ == name,
        |name: Seq<char>| entry_version(name)->0 as u64,
    )
}

/// Picks the entry files among the names of a directory, in ascending order,
/// which is that of their versions.
pub fn pick_entries(files: &Vec<String>) -> (r: SortedMap<u64>)
    ensures
        r.wf(),
        r@ == entries_among(files@),
{
    let mut r: SortedMap<u64> = SortedMap::new();
    assert(files@.take(0) =~= Seq::empty());
    assert(r@ =~= entries_among(files@.take(0)));
    for i in 0..files.len()
        invariant
            r.wf(),
            r@ == entries_among(files@.take(i as int)),
    {
        let ghost before = r@;
        let ghost name = files@[i as int]@;
        let found = version_from_name(files[i].as_str());
        if let Some(v) = found {
            r.insert(files[i].clone(), v);
        }
        proof {
            let a = files@.take(i as int);
            let b = files@.take(i + 1);
            assert forall|k: Seq<char>| entries_among(b).contains_key(k) <==> entries_among(
                a,
            ).contains_key(k) || (k == name && entry_version(name) is Some) by {
                if exists|j: int| 0 <= j < b.len() && #[trigger] b[j]@ == k {
                    let j = choose|j: int| 0 <= j < b.len() && #[trigger] b[j]@ == k;
                    if j < i {
                        assert(a[j]@ == k);
                    }
                }
                if exists|j: int| 0 <= j < a.len() && #[trigger] a[j]@ == k {
                    let j = choose|j: int| 0 <= j < a.len() && #[trigger] a[j]@ == k;
                    assert(b[j]@ == k);
                }
                if k == name {
                    assert(b[i as int]@ == k);
                }
            }
            assert(r@ =~= entries_among(b));
        }
    }
    assert(files@.take(files@.len() as int) =~= files@);
    r
}

/// What writing an entry needs: the name to write under, the name to commit to,
/// and the bytes.
#[derive(Debug)]
pub struct EntryWrite {
    pub temp: String,
    pub name: String,
    pub bytes: Vec<u8>,
}

/// Prepares the write of an entry: the framed payload goes to a temporary file
/// that is then renamed.
pub fn write_entry(version: u64, payload: &[u8], process: u32, counter: u64) -> (r: EntryWrite)
    ensures
        r.temp@ == temp_file(version as nat, process as nat, counter as nat),
        r.name@ == entry_file(version as nat),
        r.bytes@ == frame::framed(payload@),
{
    EntryWrite {
        temp: temp_name(version, process, counter),
        name: entry_name(version),
        bytes: frame(payload),
    }
}

/// An entry file that was found: the version in its name, and what it holds,
/// unless it is damaged.
pub type Found = (nat, Option<EntryDoc>);

/// The found files as mathematical values.
pub open spec fn found_docs(found: Seq<(u64, Option<Entry>)>) -> Seq<Found> {
    Seq::new(
        found.len(),
        |i: int|
            (
                found[i].0 as nat,
                match found[i].1 {
                    Some(e) => Some(e@),
                    None => None,
                },
            ),
    )
}

/// What has been recovered so far.
pub struct Recovery {
    pub snapshots: Seq<(nat, Rows)>,
    pub dataset: Rows,
    pub last: Option<nat>,
}

/// Whether an entry comes next: it is not damaged, its version is that of its
/// name and not zero, and it is above all recovered before.
pub open spec fn comes_next(last: Option<nat>, f: Found) -> bool {
    f.1 matches Some(e) && e.version != 0 && e.version == f.0 && (last matches Some(v) ==> v
        < e.version)
}

/// What is recovered from entry files: each one that comes next gives its
/// snapshot and becomes the dataset; the others are passed over.
pub open spec fn recover(found: Seq<Found>) -> Recovery
    decreases found.len(),
{
    if found.len() == 0 {
        Recovery { snapshots: Seq::empty(), dataset: Map::empty(), last: None }
    } else {
        let before = recover(found.drop_last());
        let f = found.last();
        if comes_next(before.last, f) {
            let e = f.1->0;
            Recovery {
                snapshots: before.snapshots.push((e.version, e.snapshot)),
                dataset: e.dataset,
                last: Some(e.version),
            }
        } else {
            before
        }
    }
}

/// The recovered snapshots as mathematical values.
pub open spec fn snapshot_docs(s: Seq<LoadedSnapshot>) -> Seq<(nat, Rows)> {
    Seq::new(s.len(), |i: int| (s[i].version as nat, json::map_docs(s[i].records@)))
}

/// Whether an entry comes next.
pub fn admits(last: Option<u64>, name_version: u64, version: u64) -> (r: bool)
    ensures
        r == (version != 0 && version == name_version && (last matches Some(v) ==> v < version)),
{
    version != 0 && version == name_version && match last {
        Some(v) => v < version,
        None => true,
    }
}

/// The records of a dataset as JSON objects.
pub fn records_of(d: Dataset) -> (r: Records)
    requires
        dataset_wf(d),
    ensures
        json::map_wf(r),
        json::map_docs(r@) == dataset_docs(d@),
{
    let ghost start = d;
    let mut rest = d.entries;
    let mut back: Vec<(String, Json)> = Vec::new();
    let ghost n = rest@.len();
    loop
        invariant
            dataset_wf(start),
            n == start.entries@.len(),
            rest@.len() <= n,
            rest@ == start.entries@.take(rest@.len() as int),
            back@.len() == n - rest@.len(),
            forall|i: int|
                0 <= i < back@.len() ==> {
                    let e = start.entries@[n - 1 - i];
                    &&& (#[trigger] back@[i]).0@ == e.0@
                    &&& back@[i].1@ == Tree::<Seq<char>>::Object(json::map_docs(e.1@))
                    &&& json::json_wf(back@[i].1)
                },
        ensures
            rest@.len() == 0,
        decreases rest@.len(),
    {
        let ghost left = rest@;
        match rest.pop() {
            None => {
                break;
            },
            Some((key, fields)) => {
                proof {
                    assert(left[left.len() - 1] == start.entries@[left.len() - 1]);
                    assert(rest@ =~= start.entries@.take(rest@.len() as int));
                }
                back.push((key, object(fields)));
            },
        }
    }
    let ghost all = back@;
    let entries = reversed(back);
    let r = SortedMap { entries };
    proof {
        assert forall|i: int| 0 <= i < r.entries@.len() implies {
            &&& (#[trigger] r.entries@[i]).0@ == start.entries@[i].0@
            &&& r.entries@[i].1@ == Tree::<Seq<char>>::Object(
                json::map_docs(start.entries@[i].1@),
            )
            &&& json::json_wf(r.entries@[i].1)
        } by {
            assert(r.entries@[i] == all[n - 1 - i]);
        }
        assert(r.keys() =~= start.keys());
        assert forall|k: Seq<char>| start@.contains_key(k) implies json::map_docs(r@)[k]
            == dataset_docs(start@)[k] by {
            sorted_map::lemma_map_of_key(start.entries@, k);
            let i = sorted_map::position(start.entries@, k);
            sorted_map::lemma_map_of_entry(start.entries@, i);
            sorted_map::lemma_map_of_entry(r.entries@, i);
        }
        assert(json::map_docs(r@) =~= dataset_docs(start@));
    }
    r
}

/// Recovers the state from the entry files of a directory, in ascending order of
/// their names. Each file is given by the version in its name and what it
/// holds, or `None` where it cannot be read, is no intact frame or cannot be
/// parsed.
pub fn load(found: Vec<(u64, Option<Entry>)>) -> (r: Loaded)
    requires
        forall|i: int|
            0 <= i < found@.len() ==> ((#[trigger] found@[i]).1 matches Some(e) ==> e.wf()),
        recover(found_docs(found@)).last matches Some(v) ==> v < u64::MAX,
    ensures
        snapshot_docs(r.snapshots@) == recover(found_docs(found@)).snapshots,
        forall|i: int|
            0 <= i < r.snapshots@.len() ==> json::map_wf((#[trigger] r.snapshots@[i]).records),
        dataset_docs(r.dataset@) == recover(found_docs(found@)).dataset,
        dataset_wf(r.dataset),
        r.next_version == (match recover(found_docs(found@)).last {
            Some(v) => v + 1,
            None => 1,
        }),
{
    let ghost docs = found_docs(found@);
    let mut snapshots: Vec<LoadedSnapshot> = Vec::new();
    let mut dataset: Dataset = SortedMap::new();
    let mut last: Option<u64> = None;
    let mut found = found;
    let ghost all = found@;
    let n: usize = found.len();
    proof {
        assert(docs.take(0) =~= Seq::empty());
        assert(snapshot_docs(snapshots@) =~= Seq::empty());
        assert(dataset_docs(dataset@) =~= Map::empty());
    }
    for i in 0..n
        invariant
            n == all.len(),
            found@.len() == n,
            docs == found_docs(all),
            forall|j: int|
                0 <= j < all.len() ==> ((#[trigger] all[j]).1 matches Some(e) ==> e.wf()),
            forall|j: int| i <= j < n ==> found@[j] == all[j],
            ({
                let s = recover(docs.take(i as int));
                &&& snapshot_docs(snapshots@) == s.snapshots
                &&& dataset_docs(dataset@) == s.dataset
                &&& s.last == (match last {
                    Some(v) => Some(v as nat),
                    None => None,
                })
            }),
            dataset_wf(dataset),
            forall|j: int|
                0 <= j < snapshots@.len() ==> json::map_wf((#[trigger] snapshots@[j]).records),
    {
        let name_version: u64 = found[i].0;
        let mut slot: Option<Entry> = None;
        {
            let place = &mut found[i];
            std::mem::swap(&mut place.1, &mut slot);
        }
        proof {
            assert(docs.take(i + 1).drop_last() =~= docs.take(i as int));
            assert(docs.take(i + 1).last() == docs[i as int]);
            assert(slot == all[i as int].1);
            assert(name_version == all[i as int].0);
        }
        let ghost shown = snapshot_docs(snapshots@);
        if let Some(entry) = slot {
            if admits(last, name_version, entry.version) {
                let records = records_of(entry.snapshot);
                last = Some(entry.version);
                dataset = entry.dataset;
                snapshots.push(LoadedSnapshot { version: entry.version, records });
                proof {
                    assert(snapshot_docs(snapshots@) =~= shown.push(
                        (entry.version as nat, dataset_docs(entry.snapshot@)),
                    ));
                }
            }
        }
    }
    assert(docs.take(n as int) =~= docs);
    let next_version: u64 = match last {
        Some(v) => v + 1,
        None => 1,
    };
    Loaded { snapshots, dataset, next_version }
}

/// Whether a file is intact: not damaged, and of the version in its name.
pub open spec fn intact(f: Found) -> bool {
    f.1 matches Some(e) && e.version == f.0 && e.version != 0
}

/// The intact files.
pub open spec fn intact_files(found: Seq<Found>) -> Seq<Found> {
    found.filter(|f: Found| intact(f))
}

/// Whether files stand in ascending order of the versions in their names.
pub open spec fn versions_ascend(found: Seq<Found>) -> bool {
    forall|i: int, j: int| 0 <= i < j < found.len() ==> (#[trigger] found[i]).0 < (#[trigger] found[j]).0
}

/// Every intact file is recovered, in order, whatever is damaged before or
/// between; the dataset is that of the last intact file.
pub proof fn law_intact_files_recovered(found: Seq<Found>)
    requires
        versions_ascend(found),
    ensures
        ({
            let good = intact_files(found);
            let s = recover(found);
            &&& s.snapshots == good.map_values(|f: Found| (f.1->0.version, f.1->0.snapshot))
            &&& good.len() == 0 ==> s.last is None && s.dataset == Map::<Seq<char>, Doc>::empty()
            &&& good.len() > 0 ==> s.last == Some(good.last().0) && s.dataset
                == good.last().1->0.dataset
        }),
    decreases found.len(),
{
    let keep = |f: Found| intact(f);
    let show = |f: Found| (f.1->0.version, f.1->0.snapshot);
    reveal(Seq::filter);
    if found.len() == 0 {
        assert(intact_files(found) =~= Seq::empty());
        assert(intact_files(found).map_values(show) =~= Seq::empty());
    } else {
        let front = found.drop_last();
        let f = found.last();
        assert(versions_ascend(front)) by {
            assert forall|i: int, j: int| 0 <= i < j < front.len() implies (#[trigger] front[i]).0
                < (#[trigger] front[j]).0 by {
                assert(found[i].0 < found[j].0);
            }
        }
        law_intact_files_recovered(front);
        lemma_last_among(front);
        let before = recover(front);
        if before.last is Some {
            let i = choose|i: int| 0 <= i < front.len() && #[trigger] front[i].0 == before.last->0;
            assert(found[i].0 < found[found.len() - 1].0);
        }
        let good = intact_files(front);
        if intact(f) {
            assert(intact_files(found) =~= good.push(f));
            assert(good.push(f).map_values(show) =~= good.map_values(show).push(
                (f.1->0.version, f.1->0.snapshot),
            ));
        } else {
            assert(intact_files(found) =~= good);
        }
    }
}

/// The last recovered version is one of those found.
proof fn lemma_last_among(found: Seq<Found>)
    ensures
        recover(found).last matches Some(v) ==> exists|i: int|
            0 <= i < found.len() && #[trigger] found[i].0 == v,
    decreases found.len(),
{
    if found.len() > 0 {
        let front = found.drop_last();
        lemma_last_among(front);
        if comes_next(recover(front).last, found.last()) {
            assert(found[found.len() - 1].0 == found.last().1->0.version);
        } else if recover(front).last is Some {
            let v = recover(front).last->0;
            let i = choose|i: int| 0 <= i < front.len() && #[trigger] front[i].0 == v;
            assert(found[i].0 == v);
        }
    }
}

/// The last version that is recovered from entry files.
pub fn last_version(found: &Vec<(u64, Option<Entry>)>) -> (r: Option<u64>)
    ensures
        recover(found_docs(found@)).last == (match r {
            Some(v) => Some(v as nat),
            None => None,
        }),
{
    let ghost docs = found_docs(found@);
    let mut last: Option<u64> = None;
    assert(docs.take(0) =~= Seq::empty());
    for i in 0..found.len()
        invariant
            docs == found_docs(found@),
            recover(docs.take(i as int)).last == (match last {
                Some(v) => Some(v as nat),
                None => None,
            }),
    {
        assert(docs.take(i + 1).drop_last() =~= docs.take(i as int));
        assert(docs.take(i + 1).last() == docs[i as int]);
        if let Some(entry) = &found[i].1 {
            if admits(last, found[i].0, entry.version) {
                last = Some(entry.version);
            }
        }
    }
    assert(docs.take(found@.len() as int) =~= docs);
    last
}

/// The entry files of the versions one, two, three and so on, each saved from a
/// dataset.
pub open spec fn saved_entries(saved: Seq<Rows>) -> Seq<Found> {
    Seq::new(
        saved.len(),
        |i: int|
            (
                (i + 1) as nat,
                Some(
                    EntryDoc { version: (i + 1) as nat, snapshot: saved[i], dataset: saved[i] },
                ),
            ),
    )
}

/// After a restart every saved version is there with what was saved, the dataset
/// is that of the last one, and versions go on from there.
pub proof fn law_restart_continues(saved: Seq<Rows>)
    ensures
        ({
            let s = recover(saved_entries(saved));
            &&& s.snapshots == Seq::new(saved.len(), |i: int| ((i + 1) as nat, saved[i]))
            &&& saved.len() == 0 ==> s.last is None && s.dataset == Map::<Seq<char>, Doc>::empty()
            &&& saved.len() > 0 ==> s.last == Some(saved.len()) && s.dataset == saved.last()
        }),
    decreases saved.len(),
{
    let s = recover(saved_entries(saved));
    if saved.len() == 0 {
        assert(s.snapshots =~= Seq::new(saved.len(), |i: int| ((i + 1) as nat, saved[i])));
    } else {
        let front = saved.drop_last();
        law_restart_continues(front);
        assert(saved_entries(saved).drop_last() =~= saved_entries(front));
        assert(s.snapshots =~= Seq::new(saved.len(), |i: int| ((i + 1) as nat, saved[i])));
    }
}

/// The entry of a version is called by its number in twenty digits and `.vde`;
/// before it is committed, by a dot, that name, and what tells processes and
/// tries apart.
pub proof fn law_names_of_entries(version: nat, process: nat, counter: nat, name: Seq<char>)
    ensures
        entry_file(version) == names::numbered(version, ".vde"@),
        entry_version(name) == names::number_in(name, ".vde"@),
        temp_file(version, process, counter) == "."@ + entry_file(version) + ".tmp-"@
            + numeral::dec_text(process) + "-"@ + numeral::dec_text(counter),
        is_leftover(name) <==> (exists|r: Seq<char>| name == #[trigger] ("."@ + r)) && (exists|
            a: Seq<char>,
            c: Seq<char>,
        |
            name == #[trigger] (a + ".vde.tmp-"@ + c)),
{
    names::law_begins_with(name, "."@);
    names::law_contains_text(name, ".vde.tmp-"@);
}

/// The entries among some files are exactly those with the name of an entry, each
/// with the version that its name tells.
pub proof fn law_entries_among(files: Seq<String>, i: int, name: Seq<char>)
    ensures
        0 <= i < files.len() && entry_version(files[i]@) is Some ==> entries_among(
            files,
        ).contains_key(files[i]@) && entries_among(files)[files[i]@] == entry_version(files[i]@)->0,
        entries_among(files).contains_key(name) ==> entry_version(name) is Some && exists|j: int|
            0 <= j < files.len() && #[trigger] files[j]@ == name,
{
    if 0 <= i < files.len() && entry_version(files[i]@) is Some {
        let v = entry_version(files[i]@)->0;
        names::law_numbered_names(0, files[i]@, ".vde"@);
        assert(v <= u64::MAX);
    }
}

/// One more file adds its snapshot, and its dataset is the current one, exactly
/// if it was read, tells the version of its name, and comes after all that were
/// taken before; otherwise it changes nothing.
pub proof fn law_recover_one_more(found: Seq<Found>, name: nat, e: EntryDoc)
    ensures
        ({
            let before = recover(found);
            let after = recover(found.push((name, Some(e))));
            let next = e.version == name && e.version > 0 && (before.last is None || before.last->0
                < e.version);
            &&& next ==> after.snapshots == before.snapshots.push((e.version, e.snapshot))
                && after.dataset == e.dataset && after.last == Some(e.version)
            &&& !next ==> after == before
        }),
        recover(found.push((name, None))) == recover(found),
        recover(Seq::empty()).snapshots == Seq::<(nat, Rows)>::empty(),
        recover(Seq::empty()).dataset == Map::<Seq<char>, Doc>::empty(),
        recover(Seq::empty()).last is None,
{
    assert(found.push((name, Some(e))).drop_last() =~= found);
    assert(found.push((name, None::<EntryDoc>)).drop_last() =~= found);
}

/// What was found, and what is loaded, stand for their versions and their
/// contents, in their order.
pub proof fn law_found(
    found: Seq<(u64, Option<Entry>)>,
    s: Seq<LoadedSnapshot>,
    d: Map<Seq<char>, SortedMap<Json>>,
    i: int,
    k: Seq<char>,
)
    ensures
        found_docs(found).len() == found.len(),
        0 <= i < found.len() ==> found_docs(found)[i].0 == found[i].0 && match found[i].1 {
            Some(e) => found_docs(found)[i].1 == Some(
                EntryDoc {
                    version: e.version as nat,
                    snapshot: dataset_docs(e.snapshot@),
                    dataset: dataset_docs(e.dataset@),
                },
            ),
            None => found_docs(found)[i].1 is None,
        },
        snapshot_docs(s).len() == s.len(),
        0 <= i < s.len() ==> snapshot_docs(s)[i] == (
            s[i].version as nat,
            json::map_docs(s[i].records@),
        ),
        dataset_docs(d).contains_key(k) == d.contains_key(k),
        d.contains_key(k) ==> dataset_docs(d)[k] == Tree::<Seq<char>>::Object(
            json::map_docs(d[k]@),
        ),
{
}

} // verus!
