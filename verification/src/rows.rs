//! Rows of a request: objects with an `id` and `values`.
use vstd::prelude::*;

use crate::change;
use crate::fault;
use crate::fault::{child_path, item_path, join, quote, ApiError, Fault};
use crate::json;
use crate::json::Json;
use crate::numeral;
use crate::sorted_map;
use crate::sorted_map::SortedMap;
use crate::text;
use crate::text::{is_empty, rank, Rank};
use crate::tree::{Doc, Tree};
use crate::value;
use crate::value::{as_array, as_object, get, get_text};

verus! {

/// Rows by their ids.
pub type Rows = Map<Seq<char>, Doc>;

/// Reads the items of a list in turn; the first refusal is that of the list.
pub open spec fn gather<T>(s: Seq<Doc>, f: spec_fn(nat, Doc) -> Result<T, Fault>) -> Result<
    Seq<T>,
    Fault,
>
    decreases s.len(),
{
    if s.len() == 0 {
        Ok(Seq::empty())
    } else {
        match gather(s.drop_last(), f) {
            Err(e) => Err(e),
            Ok(v) => match f((s.len() - 1) as nat, s.last()) {
                Err(e) => Err(e),
                Ok(x) => Ok(v.push(x)),
            },
        }
    }
}

/// A refusal in a front part of a list is that of the list.
pub proof fn lemma_gather_stops<T>(
    s: Seq<Doc>,
    n: int,
    f: spec_fn(nat, Doc) -> Result<T, Fault>,
)
    requires
        0 <= n <= s.len(),
        gather(s.take(n), f) is Err,
    ensures
        gather(s, f) == gather(s.take(n), f),
    decreases s.len() - n,
{
    if n < s.len() {
        assert(s.take(n + 1).drop_last() =~= s.take(n));
        lemma_gather_stops(s, n + 1, f);
    } else {
        assert(s.take(n) =~= s);
    }
}

/// A list whose items are all read gives what each of them gives.
pub proof fn lemma_gather_all<T>(
    s: Seq<Doc>,
    f: spec_fn(nat, Doc) -> Result<T, Fault>,
    out: Seq<T>,
)
    requires
        s.len() == out.len(),
        forall|i: int| 0 <= i < s.len() ==> f(i as nat, #[trigger] s[i]) == Ok::<T, Fault>(out[i]),
    ensures
        gather(s, f) == Ok::<Seq<T>, Fault>(out),
    decreases s.len(),
{
    if s.len() == 0 {
        assert(out =~= Seq::empty());
    } else {
        let n = s.len() - 1;
        assert forall|i: int| 0 <= i < n implies f(i as nat, #[trigger] s.drop_last()[i]) == Ok::<
            T,
            Fault,
        >(out.drop_last()[i]) by {
            assert(s.drop_last()[i] == s[i]);
        }
        lemma_gather_all(s.drop_last(), f, out.drop_last());
        assert(s[n] == s.last());
        assert(out.drop_last().push(out[n]) =~= out);
    }
}

/// What a list gives has one result per item.
pub proof fn lemma_gather_item<T>(s: Seq<Doc>, f: spec_fn(nat, Doc) -> Result<T, Fault>)
    requires
        gather(s, f) is Ok,
    ensures
        gather(s, f)->Ok_0.len() == s.len(),
        forall|i: int|
            0 <= i < s.len() ==> f(i as nat, #[trigger] s[i]) == Ok::<T, Fault>(
                gather(s, f)->Ok_0[i],
            ),
    decreases s.len(),
{
    if s.len() > 0 {
        lemma_gather_item(s.drop_last(), f);
        let n = s.len() - 1;
        assert forall|i: int| 0 <= i < s.len() implies f(i as nat, #[trigger] s[i]) == Ok::<
            T,
            Fault,
        >(gather(s, f)->Ok_0[i]) by {
            if i < n {
                assert(s.drop_last()[i] == s[i]);
            }
        }
    }
}

/// What one item of a row list is read as: its id and its values.
pub open spec fn read_row(d: Doc, path: Seq<char>) -> Result<(Seq<char>, Doc), Fault> {
    match d {
        Tree::Object(m) => match value::text_entry(m, "id"@) {
            None => Err(fault::bad("row id must be a string"@, fault::child(path, "id"@))),
            Some(id) => if id.len() == 0 {
                Err(fault::bad("row id must be non-empty"@, fault::child(path, "id"@)))
            } else {
                match value::entry(m, "values"@) {
                    None => Err(
                        fault::bad("missing required field"@, fault::child(path, "values"@)),
                    ),
                    Some(v) => if v is Object {
                        Ok((id, v))
                    } else {
                        Err(
                            fault::bad(
                                "row values must be an object"@,
                                fault::child(path, "values"@),
                            ),
                        )
                    },
                }
            },
        },
        _ => Err(fault::bad("row must be an object"@, path)),
    }
}

/// Reads the items of the row list at `path`.
pub open spec fn row_reader(path: Seq<char>) -> spec_fn(nat, Doc) -> Result<
    (Seq<char>, Doc),
    Fault,
> {
    |i: nat, d: Doc| read_row(d, fault::item(path, i))
}

/// The ids of a list of rows.
pub open spec fn ids_of(rows: Batch) -> Seq<Seq<char>> {
    Seq::new(rows.len(), |i: int| rows[i].0)
}

/// The rows of a list by their ids.
pub open spec fn row_map(rows: Batch) -> Rows
    decreases rows.len(),
{
    if rows.len() == 0 {
        Map::empty()
    } else {
        row_map(rows.drop_last()).insert(rows.last().0, rows.last().1)
    }
}

/// Keys and what stands at them, one after another.
pub type Batch = Seq<(Seq<char>, Doc)>;

/// Rows after a batch was written over them.
pub open spec fn overlay(rows: Rows, b: Batch) -> Rows
    decreases b.len(),
{
    if b.len() == 0 {
        rows
    } else {
        overlay(rows, b.drop_last()).insert(b.last().0, b.last().1)
    }
}

/// Whether a batch lists rows in the order of their keys.
pub open spec fn is_listing(b: Batch, rows: Rows) -> bool {
    sorted_map::ascending(ids_of(b)) && row_map(b) == rows
}

/// Whether a text stands more than once in a list.
pub open spec fn repeated(ids: Seq<Seq<char>>, k: Seq<char>) -> bool {
    exists|i: int, j: int| 0 <= i < j < ids.len() && #[trigger] ids[i] == k && #[trigger] ids[j] == k
}

/// Whether a text is the first, in order, of those that stand more than once.
pub open spec fn is_least_repeat(ids: Seq<Seq<char>>, k: Seq<char>) -> bool {
    repeated(ids, k) && forall|q: Seq<char>|
        #[trigger] repeated(ids, q) ==> q == k || text::precedes(k, q)
}

/// The first, in order, of the texts that stand more than once.
pub open spec fn least_repeat(ids: Seq<Seq<char>>) -> Option<Seq<char>> {
    if exists|k: Seq<char>| repeated(ids, k) {
        Some(choose|k: Seq<char>| is_least_repeat(ids, k))
    } else {
        None
    }
}

/// The rows that the value at `path` stands for: ids are non-empty and unique,
/// values are objects.
pub open spec fn read_rows(value: Option<Doc>, path: Seq<char>) -> Result<Rows, Fault> {
    match value {
        None => Err(fault::bad("missing required field"@, path)),
        Some(Tree::List(s)) => match gather(s, row_reader(path)) {
            Err(e) => Err(e),
            Ok(rows) => match least_repeat(ids_of(rows)) {
                Some(id) => Err(
                    fault::bad("duplicate row id "@ + fault::quoted(id), path),
                ),
                None => Ok(row_map(rows)),
            },
        },
        Some(_) => Err(fault::bad("expected an array of rows"@, path)),
    }
}

/// A row as it is written out.
pub open spec fn row_doc(id: Seq<char>, values: Doc) -> Doc {
    Tree::Object(map!["id"@ => Tree::Text(id), "values"@ => values])
}

/// Whether `ks` lists the ids of the rows in ascending order.
pub open spec fn lists_ids(ks: Seq<Seq<char>>, rows: Rows) -> bool {
    sorted_map::ascending(ks) && forall|k: Seq<char>|
        #![trigger ks.contains(k)]
        #![trigger rows.contains_key(k)]
        ks.contains(k) <==> rows.contains_key(k)
}

/// The rows with the given ids, as they are written out.
pub open spec fn rows_list(ks: Seq<Seq<char>>, rows: Rows) -> Seq<Doc> {
    Seq::new(ks.len(), |i: int| row_doc(ks[i], rows[ks[i]]))
}

/// Whether a list holds exactly the given rows in ascending order of their ids.
pub open spec fn lists_rows(l: Seq<Doc>, rows: Rows) -> bool {
    exists|ks: Seq<Seq<char>>| #[trigger] lists_ids(ks, rows) && l == rows_list(ks, rows)
}

/// Whether all ids are non-empty and all values are objects.
pub open spec fn valid_rows(rows: Rows) -> bool {
    forall|k: Seq<char>|
        #[trigger] rows.contains_key(k) ==> k.len() > 0 && rows[k] is Object
}

/// The rows of a list have the list's ids.
pub proof fn lemma_row_map(rows: Batch)
    ensures
        forall|k: Seq<char>|
            #![trigger row_map(rows).contains_key(k)]
            #![trigger ids_of(rows).contains(k)]
            row_map(rows).contains_key(k) == ids_of(rows).contains(k),
        (forall|k: Seq<char>| !repeated(ids_of(rows), k)) ==> forall|i: int|
            0 <= i < rows.len() ==> row_map(rows)[(#[trigger] rows[i]).0] == rows[i].1,
    decreases rows.len(),
{
    let ids = ids_of(rows);
    if rows.len() > 0 {
        let front = rows.drop_last();
        lemma_row_map(front);
        assert(ids =~= ids_of(front).push(rows.last().0));
        assert forall|k: Seq<char>| row_map(rows).contains_key(k) == #[trigger] ids.contains(k) by {
            if ids_of(front).contains(k) {
                let i = choose|i: int| 0 <= i < front.len() && ids_of(front)[i] == k;
                assert(ids[i] == k);
            }
            if k == rows.last().0 {
                assert(ids[rows.len() - 1] == k);
            }
            if ids.contains(k) && k != rows.last().0 {
                let i = choose|i: int| 0 <= i < ids.len() && ids[i] == k;
                assert(ids_of(front)[i] == k);
            }
        }
        if forall|k: Seq<char>| !repeated(ids, k) {
            assert forall|k: Seq<char>| !repeated(ids_of(front), k) by {
                if repeated(ids_of(front), k) {
                    let (i, j) = choose|i: int, j: int|
                        0 <= i < j < front.len() && #[trigger] ids_of(front)[i] == k
                            && #[trigger] ids_of(front)[j] == k;
                    assert(ids[i] == k && ids[j] == k);
                    assert(repeated(ids, k));
                }
            }
            assert forall|i: int| 0 <= i < rows.len() implies row_map(rows)[(#[trigger] rows[i]).0]
                == rows[i].1 by {
                if i < rows.len() - 1 {
                    assert(front[i] == rows[i]);
                    if rows[i].0 == rows.last().0 {
                        assert(ids[i] == ids[rows.len() - 1]);
                        assert(repeated(ids, rows[i].0));
                    }
                }
            }
        }
    }
}

/// Ascending texts do not repeat.
pub proof fn lemma_ascending_not_repeated(ids: Seq<Seq<char>>)
    requires
        sorted_map::ascending(ids),
    ensures
        least_repeat(ids) is None,
        forall|k: Seq<char>| !repeated(ids, k),
{
    assert forall|k: Seq<char>| !repeated(ids, k) by {
        if repeated(ids, k) {
            let (i, j) = choose|i: int, j: int|
                0 <= i < j < ids.len() && #[trigger] ids[i] == k && #[trigger] ids[j] == k;
            sorted_map::lemma_ascending_distinct(ids, i, j);
        }
    }
}

/// Rows that were read are valid.
pub proof fn lemma_read_rows_valid(value: Option<Doc>, path: Seq<char>)
    requires
        read_rows(value, path) is Ok,
    ensures
        valid_rows(read_rows(value, path)->Ok_0),
{
    let s = value->0->List_0;
    let rows = gather(s, row_reader(path))->Ok_0;
    lemma_gather_item(s, row_reader(path));
    lemma_row_map(rows);
    assert forall|k: Seq<char>| #[trigger] row_map(rows).contains_key(k) implies k.len() > 0
        && row_map(rows)[k] is Object by {
        assert(ids_of(rows).contains(k));
        let i = choose|i: int| 0 <= i < ids_of(rows).len() && ids_of(rows)[i] == k;
        assert(rows[i].0 == k);
        assert(read_row(s[i], fault::item(path, i as nat)) == Ok::<(Seq<char>, Doc), Fault>(
            rows[i],
        ));
    }
}

/// Rows that are written out are read back as they were.
pub proof fn law_rows_round_trip(l: Seq<Doc>, rows: Rows, path: Seq<char>)
    requires
        valid_rows(rows),
        lists_rows(l, rows),
    ensures
        read_rows(Some(Tree::List(l)), path) == Ok::<Rows, Fault>(rows),
{
    reveal_strlit("id");
    reveal_strlit("values");
    assert("id"@.len() != "values"@.len());
    let ks = choose|ks: Seq<Seq<char>>| #[trigger] lists_ids(ks, rows) && l == rows_list(ks, rows);
    let out = Seq::new(ks.len(), |i: int| (ks[i], rows[ks[i]]));
    let f = row_reader(path);
    assert forall|i: int| 0 <= i < l.len() implies f(i as nat, #[trigger] l[i]) == Ok::<
        (Seq<char>, Doc),
        Fault,
    >(out[i]) by {
        assert(ks.contains(ks[i]));
        assert(rows.contains_key(ks[i]));
        assert(l[i] == row_doc(ks[i], rows[ks[i]]));
    }
    lemma_gather_all(l, f, out);
    assert(ids_of(out) =~= ks);
    lemma_ascending_not_repeated(ks);
    lemma_row_map(out);
    assert forall|k: Seq<char>| rows.contains_key(k) implies row_map(out)[k] == rows[k] by {
        assert(ks.contains(k));
        let i = choose|i: int| 0 <= i < ks.len() && ks[i] == k;
        assert(out[i].0 == k);
    }
    assert(row_map(out) =~= rows);
}

/// The members of a request.
pub fn request_object(request: &Json) -> (r: Result<&SortedMap<Json>, ApiError>)
    requires
        json::json_wf(*request),
    ensures
        match r {
            Ok(m) => json::map_wf(*m) && request@ == Tree::<Seq<char>>::Object(
                json::map_docs(m@),
            ),
            Err(e) => !(request@ is Object) && e@ == fault::bad(
                "request body must be a JSON object"@,
                ""@,
            ),
        },
{
    match as_object(request) {
        Some(m) => Ok(m),
        None => Err(ApiError::bad_request("request body must be a JSON object", "")),
    }
}

fn parse_row(item: &Json, path: &str) -> (r: Result<(String, Json), ApiError>)
    requires
        json::json_wf(*item),
    ensures
        match r {
            Ok(row) => read_row(item@, path@) == Ok::<(Seq<char>, Doc), Fault>((row.0@, row.1@))
                && json::json_wf(row.1),
            Err(e) => read_row(item@, path@) == Err::<(Seq<char>, Doc), Fault>(e@),
        },
{
    let m = match as_object(item) {
        Some(m) => m,
        None => {
            return Err(ApiError::bad_request("row must be an object", path));
        },
    };
    let id_path = child_path(path, "id");
    let id = match get_text(m, "id") {
        Some(id) => id,
        None => {
            return Err(ApiError::bad_request("row id must be a string", id_path.as_str()));
        },
    };
    if is_empty(id.as_str()) {
        return Err(ApiError::bad_request("row id must be non-empty", id_path.as_str()));
    }
    let values_path = child_path(path, "values");
    match get(m, "values") {
        None => Err(ApiError::bad_request("missing required field", values_path.as_str())),
        Some(v) => {
            if as_object(v).is_some() {
                Ok((id.clone(), v.copy()))
            } else {
                Err(ApiError::bad_request("row values must be an object", values_path.as_str()))
            }
        },
    }
}

proof fn lemma_push_repeat(ids: Seq<Seq<char>>, x: Seq<char>, k: Seq<char>)
    ensures
        repeated(ids.push(x), k) <==> repeated(ids, k) || (k == x && ids.contains(x)),
{
    let more = ids.push(x);
    if repeated(more, k) {
        let (i, j) = choose|i: int, j: int|
            0 <= i < j < more.len() && #[trigger] more[i] == k && #[trigger] more[j] == k;
        assert(ids[i] == k);
        if j < ids.len() {
            assert(ids[j] == k);
        }
    }
    if repeated(ids, k) {
        let (i, j) = choose|i: int, j: int|
            0 <= i < j < ids.len() && #[trigger] ids[i] == k && #[trigger] ids[j] == k;
        assert(more[i] == k && more[j] == k);
    }
    if k == x && ids.contains(x) {
        let i = choose|i: int| 0 <= i < ids.len() && ids[i] == x;
        assert(more[i] == k && more[ids.len() as int] == k);
    }
}

/// Reads and checks a list of rows.
pub fn parse_rows(value: Option<&Json>, path: &str) -> (r: Result<SortedMap<Json>, ApiError>)
    requires
        value matches Some(j) ==> json::json_wf(*j),
    ensures
        match r {
            Ok(m) => json::map_wf(m) && read_rows(json::ref_doc(value), path@) == Ok::<Rows, Fault>(json::map_docs(m@)),
            Err(e) => read_rows(json::ref_doc(value), path@) == Err::<Rows, Fault>(e@),
        },
{
    let list = match value {
        Some(list) => list,
        None => {
            return Err(ApiError::bad_request("missing required field", path));
        },
    };
    let array = match as_array(list) {
        Some(array) => array,
        None => {
            return Err(ApiError::bad_request("expected an array of rows", path));
        },
    };
    let mut rows: SortedMap<Json> = SortedMap::new();
    let mut least: Option<String> = None;
    let ghost docs = json::list_docs(array@);
    let ghost f = row_reader(path@);
    let ghost mut seen: Batch = Seq::empty();
    proof {
        assert(docs.take(0) =~= Seq::empty());
        assert(json::map_docs(rows@) =~= row_map(seen));
        assert forall|k: Seq<char>| !repeated(ids_of(seen), k) by {}
    }
    for i in 0..array.len()
        invariant
            forall|j: int| 0 <= j < array@.len() ==> json::json_wf(#[trigger] array@[j]),
            docs == json::list_docs(array@),
            f == row_reader(path@),
            value == Some(list),
            list@ == Tree::List(docs),
            gather(docs.take(i as int), f) == Ok::<Batch, Fault>(seen),
            json::map_wf(rows),
            json::map_docs(rows@) == row_map(seen),
            match least {
                Some(k) => is_least_repeat(ids_of(seen), k@),
                None => forall|k: Seq<char>| !repeated(ids_of(seen), k),
            },
    {
        assert(docs.take(i + 1).drop_last() =~= docs.take(i as int));
        let item = item_path(path, i);
        match parse_row(&array[i], item.as_str()) {
            Err(e) => {
                proof {
                    lemma_gather_stops(docs, i + 1, f);
                }
                return Err(e);
            },
            Ok((id, values)) => {
                let ghost before = seen;
                let ghost x = id@;
                let ghost rows_before = rows;
                let ghost v = values;
                proof {
                    seen = seen.push((id@, values@));
                    assert(seen.drop_last() =~= before);
                    assert(ids_of(seen) =~= ids_of(before).push(x));
                    lemma_row_map(before);
                    assert forall|k: Seq<char>| #[trigger] repeated(ids_of(seen), k) <==> repeated(
                        ids_of(before),
                        k,
                    ) || (k == x && ids_of(before).contains(x)) by {
                        lemma_push_repeat(ids_of(before), x, k);
                    }
                    assert(rows_before@.contains_key(x) == json::map_docs(
                        rows_before@,
                    ).contains_key(x));
                }
                let copy = id.clone();
                let prior = rows.insert(id, values);
                proof {
                    json::lemma_map_insert_wf(rows_before, rows, x, v);
                    assert(prior is Some == ids_of(before).contains(x));
                    if prior is Some {
                        assert(repeated(ids_of(seen), x));
                    }
                }
                if prior.is_some() {
                    match &least {
                        None => {
                            least = Some(copy);
                        },
                        Some(k) => {
                            let order = rank(copy.as_str(), k.as_str());
                            proof {
                                text::lemma_precedes_total(copy@, k@);
                            }
                            if matches!(order, Rank::Before) {
                                proof {
                                    assert forall|q: Seq<char>| #[trigger] repeated(
                                        ids_of(seen),
                                        q,
                                    ) implies q == x || text::precedes(x, q) by {
                                        if q != x && q != k@ {
                                            text::lemma_precedes_transitive(x, k@, q);
                                        }
                                    }
                                }
                                least = Some(copy);
                            }
                        },
                    }
                }
            },
        }
    }
    assert(docs.take(array@.len() as int) =~= docs);
    match least {
        Some(k) => {
            proof {
                let ids = ids_of(seen);
                let q = choose|q: Seq<char>| is_least_repeat(ids, q);
                assert(is_least_repeat(ids, k@));
                assert(is_least_repeat(ids, q));
                if q != k@ {
                    text::lemma_precedes_asymmetric(q, k@);
                }
            }
            Err(
                ApiError::bad_request(
                    join("duplicate row id ", quote(k.as_str()).as_str()).as_str(),
                    path,
                ),
            )
        },
        None => Ok(rows),
    }
}

/// A batch gives each of its keys what it holds for it, and leaves the others.
pub proof fn lemma_overlay(rows: Rows, b: Batch, i: int, other: Seq<char>)
    requires
        change::first_repeat(ids_of(b)) is None,
    ensures
        0 <= i < b.len() ==> overlay(rows, b).contains_key(b[i].0) && overlay(rows, b)[b[i].0]
            == b[i].1,
        !ids_of(b).contains(other) ==> overlay(rows, b).contains_key(other) == rows.contains_key(
            other,
        ) && overlay(rows, b)[other] == rows[other],
    decreases b.len(),
{
    if b.len() > 0 {
        let front = b.drop_last();
        let ids = ids_of(b);
        assert(ids_of(front) =~= ids.drop_last());
        change::lemma_first_repeat(ids);
        lemma_overlay(rows, front, i, other);
        if 0 <= i < b.len() - 1 {
            assert(front[i] == b[i]);
            assert(ids[i] != ids[b.len() - 1]);
        }
        if !ids.contains(other) {
            assert(ids[b.len() - 1] == b.last().0);
            if ids_of(front).contains(other) {
                let j = choose|j: int| 0 <= j < front.len() && ids_of(front)[j] == other;
                assert(ids[j] == other);
            }
        }
    }
}

/// All items of a list are read, each by itself, or the first that cannot be
/// read decides.
pub proof fn law_gather<T>(s: Seq<Doc>, f: spec_fn(nat, Doc) -> Result<T, Fault>, e: Fault)
    ensures
        gather(s, f) matches Ok(v) ==> v.len() == s.len() && forall|i: int|
            0 <= i < s.len() ==> f(i as nat, s[i]) == Ok::<T, Fault>(#[trigger] v[i]),
        gather(s, f) is Ok <==> forall|i: int| 0 <= i < s.len() ==> f(i as nat, #[trigger] s[i]) is Ok,
        gather(s, f) == Err::<Seq<T>, Fault>(e) <==> exists|i: int|
            0 <= i < s.len() && f(i as nat, #[trigger] s[i]) == Err::<T, Fault>(e) && forall|j: int|
                0 <= j < i ==> f(j as nat, #[trigger] s[j]) is Ok,
    decreases s.len(),
{
    if gather(s, f) is Ok {
        lemma_gather_item(s, f);
    }
    if s.len() > 0 {
        let front = s.drop_last();
        let n = s.len() - 1;
        law_gather(front, f, e);
        assert forall|i: int| 0 <= i < n implies front[i] == s[i] by {}
        assert(f(n as nat, s[n]) == f((s.len() - 1) as nat, s.last()));
        if gather(s, f) == Err::<Seq<T>, Fault>(e) {
            if gather(front, f) is Err {
                let i = choose|i: int|
                    0 <= i < front.len() && f(i as nat, #[trigger] front[i]) == Err::<T, Fault>(e)
                        && forall|j: int| 0 <= j < i ==> f(j as nat, #[trigger] front[j]) is Ok;
                assert(f(i as nat, s[i]) == Err::<T, Fault>(e));
                assert forall|j: int| 0 <= j < i implies f(j as nat, #[trigger] s[j]) is Ok by {
                    assert(f(j as nat, front[j]) is Ok);
                }
            } else {
                assert forall|j: int| 0 <= j < n implies f(j as nat, #[trigger] s[j]) is Ok by {
                    assert(f(j as nat, front[j]) is Ok);
                }
            }
        }
        if exists|i: int|
            0 <= i < s.len() && f(i as nat, #[trigger] s[i]) == Err::<T, Fault>(e) && forall|j: int|
                0 <= j < i ==> f(j as nat, #[trigger] s[j]) is Ok {
            let i = choose|i: int|
                0 <= i < s.len() && f(i as nat, #[trigger] s[i]) == Err::<T, Fault>(e)
                    && forall|j: int| 0 <= j < i ==> f(j as nat, #[trigger] s[j]) is Ok;
            if i < n {
                assert(f(i as nat, front[i]) == Err::<T, Fault>(e));
                assert forall|j: int| 0 <= j < i implies f(j as nat, #[trigger] front[j]) is Ok by {
                    assert(f(j as nat, s[j]) is Ok);
                }
            } else {
                assert forall|j: int| 0 <= j < front.len() implies f(
                    j as nat,
                    #[trigger] front[j],
                ) is Ok by {
                    assert(f(j as nat, s[j]) is Ok);
                }
            }
        }
        if forall|i: int| 0 <= i < s.len() ==> f(i as nat, #[trigger] s[i]) is Ok {
            assert forall|j: int| 0 <= j < front.len() implies f(j as nat, #[trigger] front[j]) is Ok by {
                assert(f(j as nat, s[j]) is Ok);
            }
            assert(f(n as nat, s[n]) is Ok);
        }
        if gather(s, f) is Ok {
            assert forall|i: int| 0 <= i < s.len() implies f(i as nat, #[trigger] s[i]) is Ok by {}
        }
    }
}

/// An item of a list is a row exactly if it is an object with a non-empty text
/// at `id` and an object at `values`; the row is made of these two as they stand.
pub proof fn law_row_is_read(d: Doc, path: Seq<char>, id: Seq<char>, values: Doc)
    ensures
        read_row(d, path) == Ok::<(Seq<char>, Doc), Fault>((id, values)) <==> (d matches Tree::Object(
            m,
        ) && m.contains_key("id"@) && m["id"@] == Tree::<Seq<char>>::Text(id) && id.len() > 0
            && m.contains_key("values"@) && m["values"@] == values && values is Object),
{
}

/// An item that is no row is refused with 400, at the part that is wrong.
pub proof fn law_bad_row(d: Doc, path: Seq<char>)
    ensures
        !(d is Object) ==> read_row(d, path) == Err::<(Seq<char>, Doc), Fault>(
            Fault {
                status: 400,
                code: "bad_request"@,
                message: "row must be an object"@,
                path,
            },
        ),
        d matches Tree::Object(m) ==> {
            &&& !(m.contains_key("id"@) && m["id"@] is Text) ==> read_row(d, path) == Err::<
                (Seq<char>, Doc),
                Fault,
            >(
                Fault {
                    status: 400,
                    code: "bad_request"@,
                    message: "row id must be a string"@,
                    path: path + seq!['/'] + "id"@,
                },
            )
            &&& m.contains_key("id"@) && m["id"@] == Tree::<Seq<char>>::Text(Seq::empty())
                ==> read_row(d, path) == Err::<(Seq<char>, Doc), Fault>(
                Fault {
                    status: 400,
                    code: "bad_request"@,
                    message: "row id must be non-empty"@,
                    path: path + seq!['/'] + "id"@,
                },
            )
            &&& m.contains_key("id"@) && (m["id"@] matches Tree::Text(s) && s.len() > 0)
                && !m.contains_key("values"@) ==> read_row(d, path) == Err::<(Seq<char>, Doc), Fault>(
                Fault {
                    status: 400,
                    code: "bad_request"@,
                    message: "missing required field"@,
                    path: path + seq!['/'] + "values"@,
                },
            )
            &&& m.contains_key("id"@) && (m["id"@] matches Tree::Text(s) && s.len() > 0)
                && m.contains_key("values"@) && !(m["values"@] is Object) ==> read_row(d, path)
                == Err::<(Seq<char>, Doc), Fault>(
                Fault {
                    status: 400,
                    code: "bad_request"@,
                    message: "row values must be an object"@,
                    path: path + seq!['/'] + "values"@,
                },
            )
        },
{
}

/// A list of rows with different ids is read as exactly these rows, in whatever
/// order and with whatever further members they stand there.
pub proof fn law_rows_are_read(s: Seq<Doc>, rows: Batch, path: Seq<char>)
    requires
        s.len() == rows.len(),
        forall|i: int|
            0 <= i < s.len() ==> ((#[trigger] s[i]) matches Tree::Object(m) && m.contains_key("id"@)
                && m["id"@] == Tree::<Seq<char>>::Text(rows[i].0) && rows[i].0.len() > 0
                && m.contains_key("values"@) && m["values"@] == rows[i].1 && rows[i].1 is Object),
        forall|i: int, j: int|
            0 <= i < j < rows.len() ==> (#[trigger] rows[i]).0 != (#[trigger] rows[j]).0,
    ensures
        read_rows(Some(Tree::List(s)), path) matches Ok(r) && {
            &&& forall|i: int|
                0 <= i < rows.len() ==> r.contains_key((#[trigger] rows[i]).0) && r[rows[i].0]
                    == rows[i].1
            &&& forall|k: Seq<char>| #[trigger]
                r.contains_key(k) ==> exists|i: int| 0 <= i < rows.len() && #[trigger] rows[i].0 == k
        },
{
    let f = row_reader(path);
    assert forall|i: int| 0 <= i < s.len() implies f(i as nat, #[trigger] s[i]) == Ok::<
        (Seq<char>, Doc),
        Fault,
    >(rows[i]) by {
        law_row_is_read(s[i], fault::item(path, i as nat), rows[i].0, rows[i].1);
    }
    lemma_gather_all(s, f, rows);
    let ids = ids_of(rows);
    assert forall|k: Seq<char>| !repeated(ids, k) by {
        if repeated(ids, k) {
            let (i, j) = choose|i: int, j: int|
                0 <= i < j < ids.len() && #[trigger] ids[i] == k && #[trigger] ids[j] == k;
            assert(rows[i].0 == rows[j].0);
        }
    }
    lemma_row_map(rows);
    let r = row_map(rows);
    assert forall|i: int| 0 <= i < rows.len() implies r.contains_key((#[trigger] rows[i]).0) by {
        assert(ids[i] == rows[i].0);
    }
    assert forall|k: Seq<char>| #[trigger] r.contains_key(k) implies exists|i: int|
        0 <= i < rows.len() && #[trigger] rows[i].0 == k by {
        assert(ids.contains(k));
        let i = choose|i: int| 0 <= i < ids.len() && ids[i] == k;
        assert(rows[i].0 == k);
    }
}

/// Rows are read from nothing but a list of rows with different ids.
pub proof fn law_read_rows_were_listed(value: Option<Doc>, path: Seq<char>)
    requires
        read_rows(value, path) is Ok,
    ensures
        value matches Some(Tree::List(s)) && {
            let r = read_rows(value, path)->Ok_0;
            &&& forall|i: int|
                0 <= i < s.len() ==> ((#[trigger] s[i]) matches Tree::Object(m) && m.contains_key(
                    "id"@,
                ) && (m["id"@] matches Tree::Text(id) && id.len() > 0 && r.contains_key(id) && r[id]
                    == m["values"@]) && m.contains_key("values"@) && m["values"@] is Object)
            &&& forall|i: int, j: int|
                0 <= i < j < s.len() ==> (#[trigger] s[i])->Object_0["id"@] != (
                #[trigger] s[j])->Object_0["id"@]
            &&& forall|k: Seq<char>| #[trigger]
                r.contains_key(k) ==> exists|i: int|
                    0 <= i < s.len() && (#[trigger] s[i])->Object_0["id"@] == Tree::<
                        Seq<char>,
                    >::Text(k)
        },
{
    let s = value->0->List_0;
    let f = row_reader(path);
    lemma_gather_item(s, f);
    let rows = gather(s, f)->Ok_0;
    let ids = ids_of(rows);
    lemma_row_map(rows);
    assert forall|k: Seq<char>| !repeated(ids, k) by {
        assert(least_repeat(ids) is None);
    }
    let r = row_map(rows);
    assert forall|i: int| 0 <= i < s.len() implies ((#[trigger] s[i]) matches Tree::Object(m)
        && m.contains_key("id"@) && (m["id"@] matches Tree::Text(id) && id.len() > 0 && id == rows[i].0
        && r.contains_key(id) && r[id] == m["values"@]) && m.contains_key("values"@) && m["values"@] is Object) by {
        assert(f(i as nat, s[i]) == Ok::<(Seq<char>, Doc), Fault>(rows[i]));
        law_row_is_read(s[i], fault::item(path, i as nat), rows[i].0, rows[i].1);
        assert(ids[i] == rows[i].0);
    }
    assert forall|i: int, j: int| 0 <= i < j < s.len() implies (#[trigger] s[i])->Object_0["id"@]
        != (#[trigger] s[j])->Object_0["id"@] by {
        if rows[i].0 == rows[j].0 {
            assert(ids[i] == rows[i].0 && ids[j] == rows[i].0);
            assert(repeated(ids, rows[i].0));
        }
    }
    assert forall|k: Seq<char>| #[trigger] r.contains_key(k) implies exists|i: int|
        0 <= i < s.len() && (#[trigger] s[i])->Object_0["id"@] == Tree::<Seq<char>>::Text(k) by {
        assert(ids.contains(k));
        let i = choose|i: int| 0 <= i < ids.len() && ids[i] == k;
        assert(s[i] is Object);
    }
}

/// What is no list of rows is refused with 400: what is missing and what is no
/// list at its own place, otherwise the first item that is no row decides, and
/// among ids that stand more than once the first in order is told.
pub proof fn law_bad_rows(s: Seq<Doc>, other: Doc, path: Seq<char>, n: int, k: Seq<char>)
    ensures
        read_rows(None, path) == Err::<Rows, Fault>(
            Fault { status: 400, code: "bad_request"@, message: "missing required field"@, path },
        ),
        !(other is List) ==> read_rows(Some(other), path) == Err::<Rows, Fault>(
            Fault { status: 400, code: "bad_request"@, message: "expected an array of rows"@, path },
        ),
        0 <= n < s.len() && read_row(s[n], path + seq!['/'] + numeral::dec_text(n as nat)) is Err && (
        forall|i: int|
            0 <= i < n ==> read_row(
                #[trigger] s[i],
                path + seq!['/'] + numeral::dec_text(i as nat),
            ) is Ok) ==> read_rows(Some(Tree::List(s)), path) == Err::<Rows, Fault>(
            read_row(s[n], path + seq!['/'] + numeral::dec_text(n as nat))->Err_0,
        ),
        (forall|i: int|
            0 <= i < s.len() ==> read_row(
                #[trigger] s[i],
                path + seq!['/'] + numeral::dec_text(i as nat),
            ) is Ok) && (exists|i: int, j: int|
            0 <= i < j < s.len() && (#[trigger] s[i])->Object_0["id"@] == Tree::<Seq<char>>::Text(k)
                && (#[trigger] s[j])->Object_0["id"@] == Tree::<Seq<char>>::Text(k)) && (forall|
            i: int,
            j: int,
        |
            0 <= i < j < s.len() && (#[trigger] s[i])->Object_0["id"@] == (
            #[trigger] s[j])->Object_0["id"@] ==> s[i]->Object_0["id"@] == Tree::<Seq<char>>::Text(k)
                || text::precedes(k, s[i]->Object_0["id"@]->Text_0)) ==> read_rows(
            Some(Tree::List(s)),
            path,
        ) == Err::<Rows, Fault>(
            Fault {
                status: 400,
                code: "bad_request"@,
                message: "duplicate row id "@ + fault::quoted(k),
                path,
            },
        ),
{
    let f = row_reader(path);
    if 0 <= n < s.len() && read_row(s[n], fault::item(path, n as nat)) is Err && forall|i: int|
        0 <= i < n ==> read_row(#[trigger] s[i], fault::item(path, i as nat)) is Ok {
        let e = read_row(s[n], fault::item(path, n as nat))->Err_0;
        assert(f(n as nat, s[n]) == Err::<(Seq<char>, Doc), Fault>(e));
        assert forall|j: int| 0 <= j < n implies f(j as nat, #[trigger] s[j]) is Ok by {
            assert(read_row(s[j], fault::item(path, j as nat)) is Ok);
        }
        law_gather(s, f, e);
    }
    if forall|i: int|
        0 <= i < s.len() ==> read_row(#[trigger] s[i], fault::item(path, i as nat)) is Ok {
        assert forall|i: int| 0 <= i < s.len() implies f(i as nat, #[trigger] s[i]) is Ok by {
            assert(read_row(s[i], fault::item(path, i as nat)) is Ok);
        }
        law_gather(s, f, fault::bad(Seq::empty(), path));
        let rows = gather(s, f)->Ok_0;
        let ids = ids_of(rows);
        assert forall|i: int| 0 <= i < s.len() implies (#[trigger] s[i])->Object_0["id"@] == Tree::<
            Seq<char>,
        >::Text(ids[i]) by {
            assert(f(i as nat, s[i]) == Ok::<(Seq<char>, Doc), Fault>(rows[i]));
            law_row_is_read(s[i], fault::item(path, i as nat), rows[i].0, rows[i].1);
        }
        if (exists|i: int, j: int|
            0 <= i < j < s.len() && (#[trigger] s[i])->Object_0["id"@] == Tree::<Seq<char>>::Text(k)
                && (#[trigger] s[j])->Object_0["id"@] == Tree::<Seq<char>>::Text(k)) && (forall|
            i: int,
            j: int,
        |
            0 <= i < j < s.len() && (#[trigger] s[i])->Object_0["id"@] == (
            #[trigger] s[j])->Object_0["id"@] ==> s[i]->Object_0["id"@] == Tree::<Seq<char>>::Text(k)
                || text::precedes(k, s[i]->Object_0["id"@]->Text_0)) {
            let (i, j) = choose|i: int, j: int|
                0 <= i < j < s.len() && (#[trigger] s[i])->Object_0["id"@] == Tree::<
                    Seq<char>,
                >::Text(k) && (#[trigger] s[j])->Object_0["id"@] == Tree::<Seq<char>>::Text(k);
            assert(ids[i] == k && ids[j] == k);
            assert(repeated(ids, k));
            assert forall|q: Seq<char>| #[trigger] repeated(ids, q) implies q == k
                || text::precedes(k, q) by {
                let (x, y) = choose|x: int, y: int|
                    0 <= x < y < ids.len() && #[trigger] ids[x] == q && #[trigger] ids[y] == q;
                assert(s[x]->Object_0["id"@] == s[y]->Object_0["id"@]);
            }
            assert(is_least_repeat(ids, k));
            let q = choose|q: Seq<char>| is_least_repeat(ids, q);
            assert(is_least_repeat(ids, q));
            if q != k {
                text::lemma_precedes_asymmetric(q, k);
            }
        }
    }
}

/// A batch written over rows gives each of its keys what it holds last for it,
/// and leaves every other row as it was.
pub proof fn law_overlay(rows: Rows, b: Batch, i: int, other: Seq<char>)
    ensures
        0 <= i < b.len() && (forall|j: int| i < j < b.len() ==> (#[trigger] b[j]).0 != b[i].0)
            ==> overlay(rows, b).contains_key(b[i].0) && overlay(rows, b)[b[i].0] == b[i].1,
        (forall|j: int| 0 <= j < b.len() ==> (#[trigger] b[j]).0 != other) ==> overlay(
            rows,
            b,
        ).contains_key(other) == rows.contains_key(other) && overlay(rows, b)[other] == rows[other],
    decreases b.len(),
{
    if b.len() > 0 {
        let front = b.drop_last();
        let n = b.len() - 1;
        law_overlay(rows, front, i, other);
        assert forall|j: int| 0 <= j < n implies front[j] == b[j] by {}
        assert(b[n] == b.last());
    }
}

/// Rows made of a list are that list written over nothing.
pub proof fn law_row_map_is_overlay(b: Batch)
    ensures
        row_map(b) == overlay(Map::empty(), b),
    decreases b.len(),
{
    if b.len() > 0 {
        law_row_map_is_overlay(b.drop_last());
    }
}

/// A list of rows tells every row once, as an object of its id and its values,
/// in ascending order of the ids.
pub proof fn law_rows_are_told(l: Seq<Doc>, rows: Rows)
    requires
        lists_rows(l, rows),
    ensures
        forall|i: int|
            0 <= i < l.len() ==> ((#[trigger] l[i]) matches Tree::Object(m) && m.contains_key("id"@) && (
            m["id"@] matches Tree::Text(id) && rows.contains_key(id) && l[i] == Tree::<
                Seq<char>,
            >::Object(map!["id"@ => Tree::Text(id), "values"@ => rows[id]]))),
        forall|i: int, j: int|
            0 <= i < j < l.len() ==> text::precedes(
                (#[trigger] l[i])->Object_0["id"@]->Text_0,
                (#[trigger] l[j])->Object_0["id"@]->Text_0,
            ),
        forall|k: Seq<char>| #[trigger]
            rows.contains_key(k) ==> exists|i: int|
                0 <= i < l.len() && (#[trigger] l[i])->Object_0["id"@] == Tree::<Seq<char>>::Text(k),
{
    reveal_strlit("id");
    reveal_strlit("values");
    assert("id"@.len() == 2 && "values"@.len() == 6);
    let ks = choose|ks: Seq<Seq<char>>| #[trigger] lists_ids(ks, rows) && l == rows_list(ks, rows);
    assert forall|i: int| 0 <= i < l.len() implies ((#[trigger] l[i]) matches Tree::Object(m)
        && m.contains_key("id"@) && m["id"@] == Tree::<Seq<char>>::Text(ks[i]) && rows.contains_key(ks[i])
        && l[i] == Tree::<Seq<char>>::Object(
        map!["id"@ => Tree::Text(ks[i]), "values"@ => rows[ks[i]]],
    )) by {
        assert(ks.contains(ks[i]));
    }
    assert forall|k: Seq<char>| #[trigger] rows.contains_key(k) implies exists|i: int|
        0 <= i < l.len() && (#[trigger] l[i])->Object_0["id"@] == Tree::<Seq<char>>::Text(k) by {
        assert(ks.contains(k));
        let i = choose|i: int| 0 <= i < ks.len() && ks[i] == k;
        assert(l[i] is Object);
    }
}

/// A listing of rows holds every row once, with all that it has, in ascending
/// order of the ids.
pub proof fn law_listing(b: Batch, rows: Rows, i: int, k: Seq<char>)
    requires
        is_listing(b, rows),
    ensures
        0 <= i < b.len() ==> rows.contains_key(b[i].0) && rows[b[i].0] == b[i].1,
        rows.contains_key(k) ==> exists|j: int| 0 <= j < b.len() && (#[trigger] b[j]).0 == k,
        forall|x: int, y: int|
            0 <= x < y < b.len() ==> text::precedes((#[trigger] b[x]).0, (#[trigger] b[y]).0),
{
    let ids = ids_of(b);
    lemma_ascending_not_repeated(ids);
    lemma_row_map(b);
    if 0 <= i < b.len() {
        assert(ids[i] == b[i].0);
        assert(ids.contains(b[i].0));
    }
    if rows.contains_key(k) {
        assert(ids.contains(k));
        let j = choose|j: int| 0 <= j < ids.len() && ids[j] == k;
        assert(b[j].0 == k);
    }
    assert forall|x: int, y: int| 0 <= x < y < b.len() implies text::precedes(
        (#[trigger] b[x]).0,
        (#[trigger] b[y]).0,
    ) by {
        assert(text::precedes(ids[x], ids[y]));
    }
}

/// The ids of a batch are those of its rows, in their order.
pub proof fn law_ids_of(b: Batch, i: int)
    ensures
        ids_of(b).len() == b.len(),
        0 <= i < b.len() ==> ids_of(b)[i] == b[i].0,
{
}

} // verus!
