//! Applying changes to rows, forwards and backwards.
use vstd::prelude::*;

use crate::change;
use crate::change::{parse_change, repeated_id, Change, ChangeDoc, Field, FieldDoc};
use crate::fault;
use crate::fault::{child_path, item_path, join, quote, ApiError, Fault};
use crate::first;
use crate::json;
use crate::json::{list, no_members, object, with, Json};
use crate::pointer;
use crate::pointer::parse_pointer;
use crate::rows;
use crate::rows::{parse_rows, request_object, Rows};
use crate::sorted_map;
use crate::sorted_map::SortedMap;
use crate::text::text_eq;
use crate::tree;
use crate::tree::{Doc, Path, Tree};
use crate::value;
use crate::value::{
    as_array, get, get_path, get_text, json_eq, parent_is_object, remove_path, set_path,
};

verus! {

/// What a field change wants to find: forwards the old side, backwards the new.
pub open spec fn expected(f: FieldDoc, reverse: bool) -> Option<Doc> {
    if reverse {
        f.new
    } else {
        f.old
    }
}

/// What a field change leaves behind: forwards the new side, backwards the old.
pub open spec fn target(f: FieldDoc, reverse: bool) -> Option<Doc> {
    if reverse {
        f.old
    } else {
        f.new
    }
}

/// The place that a field change names.
pub open spec fn place(f: FieldDoc) -> Path {
    pointer::pointer_path(f.path)->0
}

/// Why a field change does not fit a row, if it does not.
pub open spec fn check_field(row: Doc, f: FieldDoc, reverse: bool, path: Seq<char>) -> Option<
    Fault,
> {
    let side = fault::child(path, if reverse { "new"@ } else { "old"@ });
    match (expected(f, reverse), tree::lookup(row, place(f))) {
        (None, Some(_)) => Some(
            fault::clash("expected field to be absent but it exists"@, path),
        ),
        (Some(_), None) => Some(fault::clash("expected value but field is missing"@, side)),
        (want, have) => if value::normal_option(want) != value::normal_option(have) {
            Some(fault::clash("field value does not match expected value"@, side))
        } else if target(f, reverse) is Some && !tree::has_parent(row, place(f)) {
            Some(
                fault::clash(
                    "parent path does not exist or is not an object"@,
                    fault::child(path, "path"@),
                ),
            )
        } else {
            None
        },
    }
}

/// Checks the field changes at `path` one by one.
pub open spec fn field_faults(
    row: Doc,
    fields: Seq<FieldDoc>,
    reverse: bool,
    path: Seq<char>,
) -> spec_fn(nat) -> Option<Fault> {
    |i: nat| check_field(row, fields[i as int], reverse, fault::item(path, i))
}

/// Why a row does not hold what is expected, if it does not.
pub open spec fn check_row(rows: Rows, id: Seq<char>, want: Doc, path: Seq<char>) -> Option<
    Fault,
> {
    if !rows.contains_key(id) {
        Some(
            fault::clash(
                "row "@ + fault::quoted(id) + " does not exist"@,
                fault::child(path, "id"@),
            ),
        )
    } else if value::normal(rows[id]) != value::normal(want) {
        Some(
            fault::clash(
                "row "@ + fault::quoted(id) + " values do not match expected value"@,
                fault::child(path, "value"@),
            ),
        )
    } else {
        None
    }
}

/// Why a row stands in the way, if it does.
pub open spec fn check_absent(rows: Rows, id: Seq<char>, path: Seq<char>) -> Option<Fault> {
    if rows.contains_key(id) {
        Some(
            fault::clash(
                "row "@ + fault::quoted(id) + " already exists"@,
                fault::child(path, "id"@),
            ),
        )
    } else {
        None
    }
}

/// Why a change does not fit the rows, if it does not.
pub open spec fn check_change(rows: Rows, c: ChangeDoc, reverse: bool, path: Seq<char>) -> Option<
    Fault,
> {
    match c {
        ChangeDoc::Add { id, value } => if reverse {
            check_row(rows, id, value, path)
        } else {
            check_absent(rows, id, path)
        },
        ChangeDoc::Remove { id, value } => if reverse {
            check_absent(rows, id, path)
        } else {
            check_row(rows, id, value, path)
        },
        ChangeDoc::Update { id, fields } => if !rows.contains_key(id) {
            Some(
                fault::clash(
                    "row "@ + fault::quoted(id) + " does not exist"@,
                    fault::child(path, "id"@),
                ),
            )
        } else {
            first::first_some(
                fields.len(),
                field_faults(rows[id], fields, reverse, fault::child(path, "fields"@)),
            )
        },
    }
}

/// Checks the changes at `path` one by one, all against the same rows.
pub open spec fn change_faults(
    rows: Rows,
    changes: Seq<ChangeDoc>,
    reverse: bool,
    path: Seq<char>,
) -> spec_fn(nat) -> Option<Fault> {
    |i: nat| check_change(rows, changes[i as int], reverse, fault::item(path, i))
}

/// Why changes do not fit the rows, if they do not.
pub open spec fn check_changes(
    rows: Rows,
    changes: Seq<ChangeDoc>,
    reverse: bool,
    path: Seq<char>,
) -> Option<Fault> {
    first::first_some(changes.len(), change_faults(rows, changes, reverse, path))
}

/// What field changes write, and where.
pub open spec fn writes(fields: Seq<FieldDoc>, reverse: bool) -> Seq<(Path, Option<Doc>)> {
    fields.map_values(|f: FieldDoc| (place(f), target(f, reverse)))
}

/// The rows after a change; `None` where a write has lost its parent object.
pub open spec fn step(rows: Rows, c: ChangeDoc, reverse: bool) -> Option<Rows> {
    match c {
        ChangeDoc::Add { id, value } => Some(
            if reverse {
                rows.remove(id)
            } else {
                rows.insert(id, value)
            },
        ),
        ChangeDoc::Remove { id, value } => Some(
            if reverse {
                rows.insert(id, value)
            } else {
                rows.remove(id)
            },
        ),
        ChangeDoc::Update { id, fields } => match tree::run(rows[id], writes(fields, reverse)) {
            Some(row) => Some(rows.insert(id, row)),
            None => None,
        },
    }
}

/// The rows after changes made one after another.
pub open spec fn steps(rows: Rows, changes: Seq<ChangeDoc>, reverse: bool) -> Option<Rows>
    decreases changes.len(),
{
    if changes.len() == 0 {
        Some(rows)
    } else {
        match steps(rows, changes.drop_last(), reverse) {
            Some(r) => step(r, changes.last(), reverse),
            None => None,
        }
    }
}

/// Why the field changes at `path` cannot all be made on a row: one write takes
/// away the parent object of a later one.
pub open spec fn lost_field(
    row: Doc,
    fields: Seq<FieldDoc>,
    reverse: bool,
    path: Seq<char>,
) -> Option<Fault> {
    match tree::first_lost(row, writes(fields, reverse)) {
        Some(n) => Some(
            fault::clash(
                "parent path does not exist or is not an object"@,
                fault::child(fault::item(path, n), "path"@),
            ),
        ),
        None => None,
    }
}

/// Looks for a write that loses its parent object in the changes at `path` one
/// by one. No two changes name the same row.
pub open spec fn loss_faults(
    rows: Rows,
    changes: Seq<ChangeDoc>,
    reverse: bool,
    path: Seq<char>,
) -> spec_fn(nat) -> Option<Fault> {
    |i: nat|
        match changes[i as int] {
            ChangeDoc::Update { id, fields } => lost_field(
                rows[id],
                fields,
                reverse,
                fault::child(fault::item(path, i), "fields"@),
            ),
            _ => None,
        }
}

/// Why changes that fit the rows cannot all be made, if they cannot.
pub open spec fn loss(
    rows: Rows,
    changes: Seq<ChangeDoc>,
    reverse: bool,
    path: Seq<char>,
) -> Option<Fault> {
    first::first_some(changes.len(), loss_faults(rows, changes, reverse, path))
}

/// What a request to apply changes asks for.
pub struct Order {
    pub rows: Rows,
    pub reverse: bool,
    pub changes: Seq<ChangeDoc>,
}

/// The direction that a request names: `true` for backwards.
pub open spec fn read_direction(m: Map<Seq<char>, Doc>) -> Option<bool> {
    match value::text_entry(m, "direction"@) {
        Some(d) => if d == "forward"@ {
            Some(false)
        } else if d == "reverse"@ {
            Some(true)
        } else {
            None
        },
        None => None,
    }
}

/// What the value of `changes` is read as: at most one change for each row.
pub open spec fn read_changes(value: Option<Doc>) -> Result<Seq<ChangeDoc>, Fault> {
    match value {
        None => Err(fault::bad("missing required field"@, "/changes"@)),
        Some(Tree::List(s)) => match rows::gather(s, change::change_reader("/changes"@)) {
            Err(e) => Err(e),
            Ok(changes) => match change::first_repeat(change::ids_of(changes)) {
                Some(i) => Err(
                    fault::bad(
                        "duplicate change for row id "@ + fault::quoted(changes[i as int].id()),
                        fault::child(fault::item("/changes"@, i), "id"@),
                    ),
                ),
                None => Ok(changes),
            },
        },
        Some(_) => Err(fault::bad("changes must be an array"@, "/changes"@)),
    }
}

/// What a request is read as.
pub open spec fn read_order(request: Doc) -> Result<Order, Fault> {
    match request {
        Tree::Object(m) => match rows::read_rows(value::entry(m, "rows"@), "/rows"@) {
            Err(e) => Err(e),
            Ok(rows) => match read_direction(m) {
                None => Err(
                    fault::bad(
                        "direction must be \"forward\" or \"reverse\""@,
                        "/direction"@,
                    ),
                ),
                Some(reverse) => match read_changes(value::entry(m, "changes"@)) {
                    Err(e) => Err(e),
                    Ok(changes) => Ok(Order { rows, reverse, changes }),
                },
            },
        },
        _ => Err(fault::bad("request body must be a JSON object"@, ""@)),
    }
}

/// What becomes of a request to apply changes.
pub enum Outcome {
    /// It is refused as a whole.
    Refused(Fault),
    /// All changes are made.
    Done(Rows),
}

/// What becomes of an order: it is refused where a change does not fit the rows,
/// or where one write takes away the parent object of a later one.
pub open spec fn carry_out(order: Order) -> Outcome {
    match check_changes(order.rows, order.changes, order.reverse, "/changes"@) {
        Some(e) => Outcome::Refused(e),
        None => match steps(order.rows, order.changes, order.reverse) {
            Some(rows) => Outcome::Done(rows),
            None => Outcome::Refused(
                loss(order.rows, order.changes, order.reverse, "/changes"@)->0,
            ),
        },
    }
}

/// What becomes of a request.
pub open spec fn outcome(request: Doc) -> Outcome {
    match read_order(request) {
        Err(e) => Outcome::Refused(e),
        Ok(order) => carry_out(order),
    }
}

/// Whether a document is the answer that holds the given rows.
pub open spec fn answers(d: Doc, rows: Rows) -> bool {
    exists|l: Seq<Doc>| #[trigger]
        rows::lists_rows(l, rows) && d == Tree::Object(map!["rows"@ => Tree::List(l)])
}

/// Checks a field change against a row.
pub fn validate_field(row: &Json, field: &Field, reverse: bool, path: &str) -> (r: Result<
    (),
    ApiError,
>)
    requires
        json::json_wf(*row),
        field.wf(),
        change::valid_field(field@),
    ensures
        match r {
            Ok(_) => check_field(row@, field@, reverse, path@) is None,
            Err(e) => check_field(row@, field@, reverse, path@) == Some(e@),
        },
{
    let segments = match parse_pointer(field.path.as_str()) {
        Some(segments) => segments,
        None => {
            return Ok(());
        },
    };
    let want = if reverse {
        &field.new
    } else {
        &field.old
    };
    let side = if reverse {
        "new"
    } else {
        "old"
    };
    let have = get_path(row, segments.as_slice());
    match (want, have) {
        (None, None) => {},
        (None, Some(_)) => {
            return Err(ApiError::conflict("expected field to be absent but it exists", path));
        },
        (Some(_), None) => {
            return Err(
                ApiError::conflict(
                    "expected value but field is missing",
                    child_path(path, side).as_str(),
                ),
            );
        },
        (Some(w), Some(h)) => {
            if !json_eq(w, h) {
                return Err(
                    ApiError::conflict(
                        "field value does not match expected value",
                        child_path(path, side).as_str(),
                    ),
                );
            }
        },
    }
    let left = if reverse {
        &field.old
    } else {
        &field.new
    };
    if left.is_some() && !parent_is_object(row, segments.as_slice()) {
        return Err(
            ApiError::conflict(
                "parent path does not exist or is not an object",
                child_path(path, "path").as_str(),
            ),
        );
    }
    Ok(())
}

fn row_message(id: &str, what: &str) -> (r: String)
    ensures
        r@ == "row "@ + fault::quoted(id@) + what@,
{
    join(join("row ", quote(id).as_str()).as_str(), what)
}

/// Checks that a row is there and holds the given values.
pub fn expect_row(rows: &SortedMap<Json>, id: &str, want: &Json, path: &str) -> (r: Result<
    (),
    ApiError,
>)
    requires
        json::map_wf(*rows),
        json::json_wf(*want),
    ensures
        match r {
            Ok(_) => check_row(json::map_docs(rows@), id@, want@, path@) is None,
            Err(e) => check_row(json::map_docs(rows@), id@, want@, path@) == Some(e@),
        },
{
    match get(rows, id) {
        None => Err(
            ApiError::conflict(
                row_message(id, " does not exist").as_str(),
                child_path(path, "id").as_str(),
            ),
        ),
        Some(have) => {
            if !json_eq(have, want) {
                Err(
                    ApiError::conflict(
                        row_message(id, " values do not match expected value").as_str(),
                        child_path(path, "value").as_str(),
                    ),
                )
            } else {
                Ok(())
            }
        },
    }
}

/// Checks that a row is not there.
fn expect_absent(rows: &SortedMap<Json>, id: &str, path: &str) -> (r: Result<(), ApiError>)
    requires
        json::map_wf(*rows),
    ensures
        match r {
            Ok(_) => check_absent(json::map_docs(rows@), id@, path@) is None,
            Err(e) => check_absent(json::map_docs(rows@), id@, path@) == Some(e@),
        },
{
    if rows.contains_key(id) {
        Err(
            ApiError::conflict(
                row_message(id, " already exists").as_str(),
                child_path(path, "id").as_str(),
            ),
        )
    } else {
        Ok(())
    }
}

/// Checks a change against the rows.
pub fn validate_change(
    rows: &SortedMap<Json>,
    change: &Change,
    reverse: bool,
    path: &str,
) -> (r: Result<(), ApiError>)
    requires
        json::map_wf(*rows),
        change.wf(),
        change::valid_change(change@),
    ensures
        match r {
            Ok(_) => check_change(json::map_docs(rows@), change@, reverse, path@) is None,
            Err(e) => check_change(json::map_docs(rows@), change@, reverse, path@) == Some(e@),
        },
{
    match change {
        Change::Add { id, value } => {
            if reverse {
                expect_row(rows, id.as_str(), value, path)
            } else {
                expect_absent(rows, id.as_str(), path)
            }
        },
        Change::Remove { id, value } => {
            if reverse {
                expect_absent(rows, id.as_str(), path)
            } else {
                expect_row(rows, id.as_str(), value, path)
            }
        },
        Change::Update { id, fields } => {
            let row = match get(rows, id.as_str()) {
                Some(row) => row,
                None => {
                    return Err(
                        ApiError::conflict(
                            row_message(id.as_str(), " does not exist").as_str(),
                            child_path(path, "id").as_str(),
                        ),
                    );
                },
            };
            let fields_path = child_path(path, "fields");
            let ghost docs = change::field_docs(fields@);
            let ghost f = field_faults(row@, docs, reverse, fields_path@);
            for i in 0..fields.len()
                invariant
                    json::json_wf(*row),
                    change.wf(),
                    change::valid_change(change@),
                    *change == (Change::Update { id: *id, fields: *fields }),
                    docs == change::field_docs(fields@),
                    f == field_faults(row@, docs, reverse, fields_path@),
                    fields_path@ == fault::child(path@, "fields"@),
                    json::map_docs(rows@).contains_key(id@),
                    json::map_docs(rows@)[id@] == row@,
                    first::first_some(i as nat, f) is None,
            {
                let here = item_path(fields_path.as_str(), i);
                proof {
                    assert(fields@[i as int].wf());
                    assert(docs[i as int] == fields@[i as int]@);
                    assert(change::valid_field(docs[i as int]));
                    assert(f(i as nat) == check_field(row@, docs[i as int], reverse, here@));
                }
                match validate_field(row, &fields[i], reverse, here.as_str()) {
                    Ok(_) => {},
                    Err(e) => {
                        proof {
                            assert(first::first_some((i + 1) as nat, f) == Some(e@));
                            first::lemma_first_stays(docs.len(), (i + 1) as nat, f);
                        }
                        return Err(e);
                    },
                }
            }
            Ok(())
        },
    }
}

/// Makes the writes of field changes one after another, up to the first that has
/// lost its parent object, and returns the index of that one.
fn apply_fields(row: &mut Json, fields: &Vec<Field>, reverse: bool) -> (r: Option<usize>)
    requires
        json::json_wf(*old(row)),
        forall|i: int| 0 <= i < fields@.len() ==> (#[trigger] fields@[i]).wf(),
        forall|i: int|
            0 <= i < fields@.len() ==> change::valid_field((#[trigger] fields@[i])@),
    ensures
        json::json_wf(*final(row)),
        match r {
            None => tree::run(old(row)@, writes(change::field_docs(fields@), reverse)) == Some(
                final(row)@,
            ),
            Some(i) => i < fields@.len() && tree::first_lost(
                old(row)@,
                writes(change::field_docs(fields@), reverse),
            ) == Some(i as nat),
        },
{
    let ghost start = row@;
    let ghost ws = writes(change::field_docs(fields@), reverse);
    assert(ws.skip(0) =~= ws);
    for i in 0..fields.len()
        invariant
            json::json_wf(*row),
            forall|j: int| 0 <= j < fields@.len() ==> (#[trigger] fields@[j]).wf(),
            forall|j: int|
                0 <= j < fields@.len() ==> change::valid_field((#[trigger] fields@[j])@),
            start == old(row)@,
            ws == writes(change::field_docs(fields@), reverse),
            tree::run(start, ws) == tree::run(row@, ws.skip(i as int)),
            tree::first_lost(row@, ws.skip(i as int)) matches Some(n) ==> tree::first_lost(
                start,
                ws,
            ) == Some(i as nat + n),
    {
        let field = &fields[i];
        let ghost rest = ws.skip(i as int);
        proof {
            assert(field.wf() && change::valid_field(field@));
            assert(rest[0] == (place(field@), target(field@, reverse)));
            assert(rest.drop_first() =~= ws.skip(i + 1));
        }
        let segments = match parse_pointer(field.path.as_str()) {
            Some(segments) => segments,
            None => vstd::pervasive::unreached(),
        };
        let left = if reverse {
            &field.old
        } else {
            &field.new
        };
        match left {
            Some(v) => {
                proof {
                    value::lemma_assign_where_parent(row@, place(field@), v@);
                }
                if !parent_is_object(row, segments.as_slice()) {
                    return Some(i);
                }
                set_path(row, segments.as_slice(), v.copy());
            },
            None => {
                remove_path(row, segments.as_slice());
            },
        }
    }
    assert(ws.skip(fields@.len() as int).len() == 0);
    None
}

/// Makes a change that fits the rows, or returns the index of the first field
/// change whose write has lost its parent object.
pub fn apply_change(rows: &mut SortedMap<Json>, change: &Change, reverse: bool) -> (r: Option<
    usize,
>)
    requires
        json::map_wf(*old(rows)),
        change.wf(),
        change::valid_change(change@),
        change@ is Update ==> json::map_docs(old(rows)@).contains_key(change@.id()),
    ensures
        json::map_wf(*final(rows)),
        match r {
            None => step(json::map_docs(old(rows)@), change@, reverse) == Some(
                json::map_docs(final(rows)@),
            ),
            Some(i) => {
                &&& step(json::map_docs(old(rows)@), change@, reverse) is None
                &&& change@ is Update
                &&& tree::first_lost(
                    json::map_docs(old(rows)@)[change@.id()],
                    writes(change@->fields, reverse),
                ) == Some(i as nat)
            },
        },
{
    let ghost before = *rows;
    match change {
        Change::Add { id, value } => {
            if reverse {
                rows.remove(id.as_str());
                proof {
                    json::lemma_map_remove_wf(before, *rows, id@);
                }
            } else {
                let v = value.copy();
                let ghost g = v;
                rows.insert(id.clone(), v);
                proof {
                    json::lemma_map_insert_wf(before, *rows, id@, g);
                }
            }
            None
        },
        Change::Remove { id, value } => {
            if reverse {
                let v = value.copy();
                let ghost g = v;
                rows.insert(id.clone(), v);
                proof {
                    json::lemma_map_insert_wf(before, *rows, id@, g);
                }
            } else {
                rows.remove(id.as_str());
                proof {
                    json::lemma_map_remove_wf(before, *rows, id@);
                }
            }
            None
        },
        Change::Update { id, fields } => {
            let (found, at) = rows.search(id.as_str());
            proof {
                assert(before@.contains_key(id@));
                sorted_map::lemma_map_of_entry(before.entries@, at as int);
                assert(json::map_docs(before@)[id@] == before.entries@[at as int].1@);
                let docs = change::field_docs(fields@);
                assert forall|i: int| 0 <= i < fields@.len() implies change::valid_field(
                    (#[trigger] fields@[i])@,
                ) by {
                    assert(change::valid_field(docs[i]));
                }
            }
            let slot = &mut rows.entries[at];
            let lost = apply_fields(&mut slot.1, fields, reverse);
            proof {
                value::lemma_entry_replaced(before, *rows, at as int);
                tree::lemma_first_lost(
                    json::map_docs(before@)[id@],
                    writes(change::field_docs(fields@), reverse),
                );
            }
            lost
        },
    }
}

/// Changes leave rows alone that they do not name.
pub proof fn lemma_steps_elsewhere(
    rows: Rows,
    changes: Seq<ChangeDoc>,
    reverse: bool,
    id: Seq<char>,
)
    requires
        !change::ids_of(changes).contains(id),
        steps(rows, changes, reverse) is Some,
    ensures
        steps(rows, changes, reverse)->0.contains_key(id) == rows.contains_key(id),
        steps(rows, changes, reverse)->0[id] == rows[id],
    decreases changes.len(),
{
    if changes.len() > 0 {
        let front = changes.drop_last();
        let ids = change::ids_of(changes);
        assert(ids[changes.len() - 1] == changes.last().id());
        assert(!change::ids_of(front).contains(id)) by {
            if change::ids_of(front).contains(id) {
                let i = choose|i: int| 0 <= i < front.len() && change::ids_of(front)[i] == id;
                assert(ids[i] == id);
            }
        }
        lemma_steps_elsewhere(rows, front, reverse, id);
    }
}

/// Changes that cannot all be made cannot be made with more behind them.
proof fn lemma_lost_stays(rows: Rows, changes: Seq<ChangeDoc>, reverse: bool, n: int)
    requires
        0 <= n <= changes.len(),
        steps(rows, changes.take(n), reverse) is None,
    ensures
        steps(rows, changes, reverse) is None,
    decreases changes.len() - n,
{
    if n < changes.len() {
        assert(changes.take(n + 1).drop_last() =~= changes.take(n));
        lemma_lost_stays(rows, changes, reverse, n + 1);
    } else {
        assert(changes.take(n) =~= changes);
    }
}

/// Reads and checks the list of changes.
fn parse_changes(value: Option<&Json>) -> (r: Result<Vec<Change>, ApiError>)
    requires
        value matches Some(j) ==> json::json_wf(*j),
    ensures
        match r {
            Ok(v) => {
                &&& read_changes(json::ref_doc(value)) == Ok::<Seq<ChangeDoc>, Fault>(
                    change::change_docs(v@),
                )
                &&& forall|i: int|
                    0 <= i < v@.len() ==> (#[trigger] v@[i]).wf() && change::valid_change(v@[i]@)
            },
            Err(e) => read_changes(json::ref_doc(value)) == Err::<Seq<ChangeDoc>, Fault>(e@),
        },
{
    let all = match value {
        Some(all) => all,
        None => {
            return Err(ApiError::bad_request("missing required field", "/changes"));
        },
    };
    let array = match as_array(all) {
        Some(array) => array,
        None => {
            return Err(ApiError::bad_request("changes must be an array", "/changes"));
        },
    };
    let mut changes: Vec<Change> = Vec::new();
    let ghost docs = json::list_docs(array@);
    let ghost f = change::change_reader("/changes"@);
    assert(docs.take(0) =~= Seq::empty());
    assert(change::change_docs(changes@) =~= Seq::empty());
    for i in 0..array.len()
        invariant
            forall|j: int| 0 <= j < array@.len() ==> json::json_wf(#[trigger] array@[j]),
            docs == json::list_docs(array@),
            f == change::change_reader("/changes"@),
            value == Some(all),
            all@ == Tree::List(docs),
            rows::gather(docs.take(i as int), f) == Ok::<Seq<ChangeDoc>, Fault>(
                change::change_docs(changes@),
            ),
            forall|j: int|
                0 <= j < changes@.len() ==> (#[trigger] changes@[j]).wf() && change::valid_change(
                    changes@[j]@,
                ),
    {
        assert(docs.take(i + 1).drop_last() =~= docs.take(i as int));
        let here = item_path("/changes", i);
        match parse_change(&array[i], here.as_str()) {
            Err(e) => {
                proof {
                    rows::lemma_gather_stops(docs, i + 1, f);
                }
                return Err(e);
            },
            Ok(c) => {
                let ghost before = change::change_docs(changes@);
                let ghost x = c@;
                proof {
                    change::lemma_read_change_valid(array@[i as int]@, here@);
                }
                changes.push(c);
                assert(change::change_docs(changes@) =~= before.push(x));
            },
        }
    }
    assert(docs.take(array@.len() as int) =~= docs);
    match repeated_id(&changes) {
        Some(i) => {
            Err(
                ApiError::bad_request(
                    join(
                        "duplicate change for row id ",
                        quote(changes[i].id().as_str()).as_str(),
                    ).as_str(),
                    child_path(item_path("/changes", i).as_str(), "id").as_str(),
                ),
            )
        },
        None => Ok(changes),
    }
}

/// The direction that a request names: `true` for backwards.
fn parse_direction(m: &SortedMap<Json>) -> (r: Option<bool>)
    requires
        json::map_wf(*m),
    ensures
        r == read_direction(json::map_docs(m@)),
{
    match get_text(m, "direction") {
        None => None,
        Some(d) => {
            if text_eq(d.as_str(), "forward") {
                Some(false)
            } else if text_eq(d.as_str(), "reverse") {
                Some(true)
            } else {
                None
            }
        },
    }
}

/// Writes rows out in ascending order of their ids.
fn rows_json(rows: &SortedMap<Json>) -> (r: Json)
    requires
        json::map_wf(*rows),
    ensures
        json::json_wf(r),
        answers(r@, json::map_docs(rows@)),
{
    let mut items: Vec<Json> = Vec::new();
    let ghost m = json::map_docs(rows@);
    let ghost ks = rows.keys();
    for i in 0..rows.entries.len()
        invariant
            json::map_wf(*rows),
            m == json::map_docs(rows@),
            ks == rows.keys(),
            items@.len() == i,
            forall|j: int| 0 <= j < i ==> json::json_wf(#[trigger] items@[j]),
            forall|j: int| 0 <= j < i ==> (#[trigger] items@[j])@ == rows::row_doc(ks[j], m[ks[j]]),
    {
        proof {
            assert(json::json_wf(rows.entries@[i as int].1));
            sorted_map::lemma_map_of_entry(rows.entries@, i as int);
            assert(ks[i as int] == rows.entries@[i as int].0@);
        }
        let row = with(no_members(), "id", Json::String(rows.entries[i].0.clone()));
        items.push(object(with(row, "values", rows.entries[i].1.copy())));
    }
    proof {
        let l = json::list_docs(items@);
        assert(l =~= rows::rows_list(ks, m));
        assert forall|k: Seq<char>| ks.contains(k) <==> m.contains_key(k) by {}
        assert(rows::lists_ids(ks, m));
        assert(rows::lists_rows(l, m));
    }
    object(with(no_members(), "rows", list(items)))
}

/// Checks changes against rows and makes them, or refuses them as a whole.
pub fn apply(request: &Json) -> (r: Result<Json, ApiError>)
    requires
        json::json_wf(*request),
    ensures
        match r {
            Ok(answer) => json::json_wf(answer) && outcome(request@) is Done && answers(
                answer@,
                outcome(request@)->Done_0,
            ),
            Err(e) => outcome(request@) == Outcome::Refused(e@),
        },
{
    let m = match request_object(request) {
        Ok(m) => m,
        Err(e) => {
            return Err(e);
        },
    };
    let mut rows = match parse_rows(get(m, "rows"), "/rows") {
        Ok(rows) => rows,
        Err(e) => {
            return Err(e);
        },
    };
    let reverse = match parse_direction(m) {
        Some(reverse) => reverse,
        None => {
            return Err(
                ApiError::bad_request(
                    "direction must be \"forward\" or \"reverse\"",
                    "/direction",
                ),
            );
        },
    };
    let changes = match parse_changes(get(m, "changes")) {
        Ok(changes) => changes,
        Err(e) => {
            return Err(e);
        },
    };
    let ghost start = json::map_docs(rows@);
    let ghost docs = change::change_docs(changes@);
    let ghost order = Order { rows: start, reverse, changes: docs };
    let ghost f = change_faults(start, docs, reverse, "/changes"@);
    assert(read_order(request@) == Ok::<Order, Fault>(order));
    for i in 0..changes.len()
        invariant
            read_order(request@) == Ok::<Order, Fault>(order),
            order == (Order { rows: start, reverse, changes: docs }),
            docs == change::change_docs(changes@),
            f == change_faults(start, docs, reverse, "/changes"@),
            json::map_wf(rows),
            start == json::map_docs(rows@),
            forall|j: int|
                0 <= j < changes@.len() ==> (#[trigger] changes@[j]).wf() && change::valid_change(
                    changes@[j]@,
                ),
            first::first_some(i as nat, f) is None,
    {
        let here = item_path("/changes", i);
        proof {
            assert(changes@[i as int].wf());
            assert(f(i as nat) == check_change(start, docs[i as int], reverse, here@));
        }
        match validate_change(&rows, &changes[i], reverse, here.as_str()) {
            Ok(_) => {},
            Err(e) => {
                proof {
                    assert(first::first_some((i + 1) as nat, f) == Some(e@));
                    first::lemma_first_stays(docs.len(), (i + 1) as nat, f);
                }
                return Err(e);
            },
        }
    }
    let ghost g = loss_faults(start, docs, reverse, "/changes"@);
    proof {
        first::lemma_none_found(docs.len(), f);
        change::lemma_first_repeat(change::ids_of(docs));
        assert(docs.take(0) =~= Seq::empty());
    }
    for i in 0..changes.len()
        invariant
            read_order(request@) == Ok::<Order, Fault>(order),
            order == (Order { rows: start, reverse, changes: docs }),
            docs == change::change_docs(changes@),
            f == change_faults(start, docs, reverse, "/changes"@),
            g == loss_faults(start, docs, reverse, "/changes"@),
            first::first_some(docs.len(), f) is None,
            first::first_some(i as nat, g) is None,
            forall|j: nat| j < docs.len() ==> #[trigger] f(j) is None,
            forall|j: int, k: int|
                0 <= j < k < docs.len() ==> change::ids_of(docs)[j] != change::ids_of(docs)[k],
            json::map_wf(rows),
            forall|j: int|
                0 <= j < changes@.len() ==> (#[trigger] changes@[j]).wf() && change::valid_change(
                    changes@[j]@,
                ),
            steps(start, docs.take(i as int), reverse) == Some(json::map_docs(rows@)),
    {
        let ghost c = docs[i as int];
        proof {
            assert(changes@[i as int].wf());
            assert(c == changes@[i as int]@);
            assert(f(i as nat) is None);
            let front = docs.take(i as int);
            let ids = change::ids_of(docs);
            assert(!change::ids_of(front).contains(c.id())) by {
                let fs = change::ids_of(front);
                if fs.contains(c.id()) {
                    let j = choose|j: int| 0 <= j < fs.len() && fs[j] == c.id();
                    assert(ids[j] == ids[i as int]);
                }
            }
            lemma_steps_elsewhere(start, front, reverse, c.id());
            assert(docs.take(i + 1).drop_last() =~= front);
        }
        if let Some(n) = apply_change(&mut rows, &changes[i], reverse) {
            let fields_path = child_path(item_path("/changes", i).as_str(), "fields");
            let here = item_path(fields_path.as_str(), n);
            let e = ApiError::conflict(
                "parent path does not exist or is not an object",
                child_path(here.as_str(), "path").as_str(),
            );
            proof {
                lemma_lost_stays(start, docs, reverse, i + 1);
                assert(g(i as nat) == Some(e@));
                assert(first::first_some((i + 1) as nat, g) == Some(e@));
                first::lemma_first_stays(docs.len(), (i + 1) as nat, g);
            }
            return Err(e);
        }
        proof {
            if let ChangeDoc::Update { id, fields } = c {
                tree::lemma_first_lost(start[id], writes(fields, reverse));
            }
            assert(g(i as nat) is None);
        }
    }
    assert(docs.take(changes@.len() as int) =~= docs);
    Ok(rows_json(&rows))
}

/// The direction of a request is what stands at `direction`.
pub proof fn law_direction(m: Map<Seq<char>, Doc>, reverse: bool)
    ensures
        read_direction(m) == Some(reverse) <==> m.contains_key("direction"@) && m["direction"@]
            == Tree::<Seq<char>>::Text(
            if reverse {
                "reverse"@
            } else {
                "forward"@
            },
        ),
{
    reveal_strlit("forward");
    reveal_strlit("reverse");
    assert("forward"@[0] == 'f' && "reverse"@[0] == 'r');
}

/// The changes of a request are those of its list, one for each item, and no two
/// name the same row.
pub proof fn law_changes_are_read(value: Option<Doc>, changes: Seq<ChangeDoc>)
    ensures
        read_changes(value) == Ok::<Seq<ChangeDoc>, Fault>(changes) <==> (value matches Some(
            Tree::List(s),
        ) && s.len() == changes.len() && (forall|i: int|
            0 <= i < s.len() ==> change::read_change(
                #[trigger] s[i],
                fault::item("/changes"@, i as nat),
            ) == Ok::<ChangeDoc, Fault>(changes[i])) && forall|i: int, j: int|
            0 <= i < j < changes.len() ==> (#[trigger] changes[i]).id() != (
            #[trigger] changes[j]).id()),
{
    let f = change::change_reader("/changes"@);
    let ids = change::ids_of(changes);
    change::lemma_first_repeat(ids);
    if let Some(Tree::List(s)) = value {
        if read_changes(value) == Ok::<Seq<ChangeDoc>, Fault>(changes) {
            rows::lemma_gather_item(s, f);
            assert forall|i: int| 0 <= i < s.len() implies change::read_change(
                #[trigger] s[i],
                fault::item("/changes"@, i as nat),
            ) == Ok::<ChangeDoc, Fault>(changes[i]) by {
                assert(f(i as nat, s[i]) == Ok::<ChangeDoc, Fault>(changes[i]));
            }
            assert forall|i: int, j: int| 0 <= i < j < changes.len() implies (
            #[trigger] changes[i]).id() != (#[trigger] changes[j]).id() by {
                assert(ids[i] != ids[j]);
            }
        }
        if s.len() == changes.len() && (forall|i: int|
            0 <= i < s.len() ==> change::read_change(
                #[trigger] s[i],
                fault::item("/changes"@, i as nat),
            ) == Ok::<ChangeDoc, Fault>(changes[i])) && forall|i: int, j: int|
            0 <= i < j < changes.len() ==> (#[trigger] changes[i]).id() != (
            #[trigger] changes[j]).id() {
            assert forall|i: int| 0 <= i < s.len() implies f(i as nat, #[trigger] s[i]) == Ok::<
                ChangeDoc,
                Fault,
            >(changes[i]) by {
                assert(change::read_change(s[i], fault::item("/changes"@, i as nat)) == Ok::<
                    ChangeDoc,
                    Fault,
                >(changes[i]));
            }
            rows::lemma_gather_all(s, f, changes);
            assert forall|i: int, j: int| 0 <= i < j < ids.len() implies ids[i] != ids[j] by {
                assert(changes[i].id() != changes[j].id());
            }
            change::lemma_no_repeat(ids);
        }
    }
}

/// What is no list of changes is refused with 400: the first item that is none
/// decides, otherwise the first change to a row that was changed already.
pub proof fn law_bad_changes(s: Seq<Doc>, other: Doc, n: int, changes: Seq<ChangeDoc>)
    ensures
        read_changes(None) == Err::<Seq<ChangeDoc>, Fault>(
            fault::bad("missing required field"@, "/changes"@),
        ),
        !(other is List) ==> read_changes(Some(other)) == Err::<Seq<ChangeDoc>, Fault>(
            fault::bad("changes must be an array"@, "/changes"@),
        ),
        0 <= n < s.len() && change::read_change(s[n], fault::item("/changes"@, n as nat)) is Err && (
        forall|i: int|
            0 <= i < n ==> change::read_change(
                #[trigger] s[i],
                fault::item("/changes"@, i as nat),
            ) is Ok) ==> read_changes(Some(Tree::List(s))) == Err::<Seq<ChangeDoc>, Fault>(
            change::read_change(s[n], fault::item("/changes"@, n as nat))->Err_0,
        ),
        s.len() == changes.len() && (forall|i: int|
            0 <= i < s.len() ==> change::read_change(
                #[trigger] s[i],
                fault::item("/changes"@, i as nat),
            ) == Ok::<ChangeDoc, Fault>(changes[i])) && 0 <= n < s.len() && (exists|j: int|
            0 <= j < n && (#[trigger] changes[j]).id() == changes[n].id()) && (forall|
            i: int,
            j: int,
        |
            0 <= i < j < n ==> (#[trigger] changes[i]).id() != (#[trigger] changes[j]).id())
            ==> read_changes(Some(Tree::List(s))) == Err::<Seq<ChangeDoc>, Fault>(
            fault::bad(
                "duplicate change for row id "@ + fault::quoted(changes[n].id()),
                fault::item("/changes"@, n as nat) + seq!['/'] + "id"@,
            ),
        ),
{
    let f = change::change_reader("/changes"@);
    if 0 <= n < s.len() && change::read_change(s[n], fault::item("/changes"@, n as nat)) is Err
        && forall|i: int|
        0 <= i < n ==> change::read_change(#[trigger] s[i], fault::item("/changes"@, i as nat)) is Ok {
        let e = change::read_change(s[n], fault::item("/changes"@, n as nat))->Err_0;
        assert(f(n as nat, s[n]) == Err::<ChangeDoc, Fault>(e));
        assert forall|j: int| 0 <= j < n implies f(j as nat, #[trigger] s[j]) is Ok by {
            assert(change::read_change(s[j], fault::item("/changes"@, j as nat)) is Ok);
        }
        rows::law_gather(s, f, e);
    }
    if s.len() == changes.len() && (forall|i: int|
        0 <= i < s.len() ==> change::read_change(#[trigger] s[i], fault::item("/changes"@, i as nat))
            == Ok::<ChangeDoc, Fault>(changes[i])) && 0 <= n < s.len() && (exists|j: int|
        0 <= j < n && (#[trigger] changes[j]).id() == changes[n].id()) && (forall|i: int, j: int|
        0 <= i < j < n ==> (#[trigger] changes[i]).id() != (#[trigger] changes[j]).id()) {
        assert forall|i: int| 0 <= i < s.len() implies f(i as nat, #[trigger] s[i]) == Ok::<
            ChangeDoc,
            Fault,
        >(changes[i]) by {
            assert(change::read_change(s[i], fault::item("/changes"@, i as nat)) == Ok::<
                ChangeDoc,
                Fault,
            >(changes[i]));
        }
        rows::lemma_gather_all(s, f, changes);
        let ids = change::ids_of(changes);
        let k = choose|k: int| 0 <= k < n && (#[trigger] changes[k]).id() == changes[n].id();
        assert(ids[k] == ids[n]);
        assert forall|i: int, j: int| 0 <= i < j < n implies ids[i] != ids[j] by {
            assert(changes[i].id() != changes[j].id());
        }
        change::lemma_repeat_at(ids, n, k);
    }
}

/// An order is made of the rows, the direction and the changes of a request.
pub proof fn law_order_is_read(request: Doc, order: Order)
    ensures
        read_order(request) == Ok::<Order, Fault>(order) <==> (request matches Tree::Object(m)
            && m.contains_key("rows"@) && m.contains_key("direction"@) && m.contains_key("changes"@)
            && rows::read_rows(Some(m["rows"@]), "/rows"@) == Ok::<Rows, Fault>(order.rows)
            && m["direction"@] == Tree::<Seq<char>>::Text(
            if order.reverse {
                "reverse"@
            } else {
                "forward"@
            },
        ) && read_changes(Some(m["changes"@])) == Ok::<Seq<ChangeDoc>, Fault>(order.changes)),
{
    if let Tree::Object(m) = request {
        law_direction(m, order.reverse);
        if let Some(d) = read_direction(m) {
            law_direction(m, d);
            law_direction(m, !d);
        }
        if !m.contains_key("rows"@) {
            assert(rows::read_rows(None, "/rows"@) is Err);
        }
    }
}

/// A malformed request is refused with 400: its rows decide first, then its
/// direction, then its changes.
pub proof fn law_bad_order(request: Doc)
    ensures
        !(request is Object) ==> read_order(request) == Err::<Order, Fault>(
            fault::bad("request body must be a JSON object"@, ""@),
        ),
        request matches Tree::Object(m) ==> {
            let r = rows::read_rows(
                if m.contains_key("rows"@) {
                    Some(m["rows"@])
                } else {
                    None
                },
                "/rows"@,
            );
            let directed = m.contains_key("direction"@) && (m["direction"@] == Tree::<
                Seq<char>,
            >::Text("forward"@) || m["direction"@] == Tree::<Seq<char>>::Text("reverse"@));
            let c = read_changes(
                if m.contains_key("changes"@) {
                    Some(m["changes"@])
                } else {
                    None
                },
            );
            &&& r is Err ==> read_order(request) == Err::<Order, Fault>(r->Err_0)
            &&& r is Ok && !directed ==> read_order(request) == Err::<Order, Fault>(
                fault::bad(
                    "direction must be \"forward\" or \"reverse\""@,
                    "/direction"@,
                ),
            )
            &&& r is Ok && directed && c is Err ==> read_order(request) == Err::<Order, Fault>(
                c->Err_0,
            )
        },
{
    if let Tree::Object(m) = request {
        law_direction(m, true);
        law_direction(m, false);
    }
}

/// A field change names the place that its path spells, expects the side that it
/// comes from and leaves the other one.
pub proof fn law_sides_of_a_field(f: FieldDoc, p: Path)
    requires
        p.len() > 0,
        f.path == pointer::pointer_text(p),
    ensures
        place(f) == p,
        expected(f, false) == f.old && target(f, false) == f.new,
        expected(f, true) == f.new && target(f, true) == f.old,
{
    pointer::law_pointer_round_trip(p);
}

/// A field change fits a row exactly if what it expects stands at its place,
/// numbers by what they are, or is missing there as expected, and if what it
/// leaves can be put there. Otherwise it is refused with 409.
pub proof fn law_field_fits(row: Doc, f: FieldDoc, reverse: bool, path: Seq<char>)
    ensures
        ({
            let want = if reverse { f.new } else { f.old };
            let left = if reverse { f.old } else { f.new };
            let have = tree::lookup(row, place(f));
            let side = path + seq!['/'] + (if reverse { "new"@ } else { "old"@ });
            let same = want is Some && have is Some && value::normal(want->0) == value::normal(
                have->0,
            );
            let fits = same || (want is None && have is None);
            let put = left is None || tree::has_parent(row, place(f));
            &&& check_field(row, f, reverse, path) is None <==> fits && put
            &&& want is None && have is Some ==> check_field(row, f, reverse, path) == Some(
                fault::clash("expected field to be absent but it exists"@, path),
            )
            &&& want is Some && have is None ==> check_field(row, f, reverse, path) == Some(
                fault::clash("expected value but field is missing"@, side),
            )
            &&& want is Some && have is Some && !same ==> check_field(row, f, reverse, path) == Some(
                fault::clash("field value does not match expected value"@, side),
            )
            &&& fits && !put ==> check_field(row, f, reverse, path) == Some(
                fault::clash(
                    "parent path does not exist or is not an object"@,
                    path + seq!['/'] + "path"@,
                ),
            )
        }),
{
}

/// A change fits rows exactly if the row that it makes is not there, the row
/// that it takes away is there with the same values, or the row that it updates
/// is there and every field change fits it. Otherwise it is refused with 409.
pub proof fn law_change_fits(rows: Rows, c: ChangeDoc, reverse: bool, path: Seq<char>)
    ensures
        ({
            let id = c.id();
            let gone = fault::clash(
                "row "@ + fault::quoted(id) + " does not exist"@,
                path + seq!['/'] + "id"@,
            );
            let makes = (c is Add && !reverse) || (c is Remove && reverse);
            let takes = (c is Add && reverse) || (c is Remove && !reverse);
            let row = if c is Add { c->Add_value } else { c->Remove_value };
            &&& makes ==> check_change(rows, c, reverse, path) == (if rows.contains_key(id) {
                Some(
                    fault::clash(
                        "row "@ + fault::quoted(id) + " already exists"@,
                        path + seq!['/'] + "id"@,
                    ),
                )
            } else {
                None
            })
            &&& takes ==> check_change(rows, c, reverse, path) == (if !rows.contains_key(id) {
                Some(gone)
            } else if value::normal(rows[id]) != value::normal(row) {
                Some(
                    fault::clash(
                        "row "@ + fault::quoted(id) + " values do not match expected value"@,
                        path + seq!['/'] + "value"@,
                    ),
                )
            } else {
                None
            })
            &&& c is Update && !rows.contains_key(id) ==> check_change(rows, c, reverse, path) == Some(
                gone,
            )
            &&& c is Update && rows.contains_key(id) ==> (check_change(rows, c, reverse, path) is None
                <==> forall|i: int|
                0 <= i < c->fields.len() ==> check_field(
                    rows[id],
                    #[trigger] c->fields[i],
                    reverse,
                    fault::item(path + seq!['/'] + "fields"@, i as nat),
                ) is None)
        }),
{
    if let ChangeDoc::Update { id, fields } = c {
        if rows.contains_key(id) {
            let at = fault::child(path, "fields"@);
            let f = field_faults(rows[id], fields, reverse, at);
            first::lemma_none_found(fields.len(), f);
            assert forall|i: int| 0 <= i < fields.len() implies f(i as nat) == check_field(
                rows[id],
                #[trigger] fields[i],
                reverse,
                fault::item(at, i as nat),
            ) by {}
            if forall|i: int|
                0 <= i < fields.len() ==> check_field(
                    rows[id],
                    #[trigger] fields[i],
                    reverse,
                    fault::item(at, i as nat),
                ) is None {
                assert forall|i: nat| i < fields.len() implies #[trigger] f(i) is None by {
                    assert(check_field(
                        rows[id],
                        fields[i as int],
                        reverse,
                        fault::item(at, i),
                    ) is None);
                }
            }
        }
    }
}

/// The first field change of an update that does not fit decides.
pub proof fn law_first_unfit_field(
    rows: Rows,
    id: Seq<char>,
    fields: Seq<FieldDoc>,
    reverse: bool,
    path: Seq<char>,
    n: int,
)
    requires
        rows.contains_key(id),
        0 <= n < fields.len(),
        check_field(
            rows[id],
            fields[n],
            reverse,
            fault::item(path + seq!['/'] + "fields"@, n as nat),
        ) is Some,
        forall|i: int|
            0 <= i < n ==> check_field(
                rows[id],
                #[trigger] fields[i],
                reverse,
                fault::item(path + seq!['/'] + "fields"@, i as nat),
            ) is None,
    ensures
        check_change(rows, ChangeDoc::Update { id, fields }, reverse, path) == check_field(
            rows[id],
            fields[n],
            reverse,
            fault::item(path + seq!['/'] + "fields"@, n as nat),
        ),
{
    let at = fault::child(path, "fields"@);
    let f = field_faults(rows[id], fields, reverse, at);
    assert forall|j: nat| j < n implies #[trigger] f(j) is None by {
        assert(check_field(rows[id], fields[j as int], reverse, fault::item(at, j)) is None);
    }
    first::law_first_is_least(fields.len(), f, n as nat);
}

/// Changes are refused exactly if one of them, by itself, does not fit the rows;
/// the first such decides. Neither the other changes nor their order matter.
pub proof fn law_changes_fit_one_by_one(
    rows: Rows,
    changes: Seq<ChangeDoc>,
    reverse: bool,
    path: Seq<char>,
    n: int,
)
    ensures
        check_changes(rows, changes, reverse, path) is None <==> forall|i: int|
            0 <= i < changes.len() ==> check_change(
                rows,
                #[trigger] changes[i],
                reverse,
                fault::item(path, i as nat),
            ) is None,
        0 <= n < changes.len() && check_change(rows, changes[n], reverse, fault::item(path, n as nat)) is Some
            && (forall|i: int|
            0 <= i < n ==> check_change(
                rows,
                #[trigger] changes[i],
                reverse,
                fault::item(path, i as nat),
            ) is None) ==> check_changes(rows, changes, reverse, path) == check_change(
            rows,
            changes[n],
            reverse,
            fault::item(path, n as nat),
        ),
{
    let f = change_faults(rows, changes, reverse, path);
    first::lemma_none_found(changes.len(), f);
    assert forall|i: int| 0 <= i < changes.len() implies f(i as nat) == check_change(
        rows,
        #[trigger] changes[i],
        reverse,
        fault::item(path, i as nat),
    ) by {}
    if forall|i: int|
        0 <= i < changes.len() ==> check_change(
            rows,
            #[trigger] changes[i],
            reverse,
            fault::item(path, i as nat),
        ) is None {
        assert forall|i: nat| i < changes.len() implies #[trigger] f(i) is None by {
            assert(check_change(rows, changes[i as int], reverse, fault::item(path, i)) is None);
        }
    }
    if 0 <= n < changes.len() && f(n as nat) is Some && (forall|i: int|
        0 <= i < n ==> check_change(
            rows,
            #[trigger] changes[i],
            reverse,
            fault::item(path, i as nat),
        ) is None) {
        assert forall|j: nat| j < n implies #[trigger] f(j) is None by {
            assert(check_change(rows, changes[j as int], reverse, fault::item(path, j)) is None);
        }
        first::law_first_is_least(changes.len(), f, n as nat);
    }
}

/// A change that is made puts a row there as it is, takes a row away, or makes
/// the writes of its field changes on a row; it touches no other row.
pub proof fn law_change_is_made(rows: Rows, c: ChangeDoc, reverse: bool, i: int)
    ensures
        c matches ChangeDoc::Add { id, value } ==> step(rows, c, reverse) == Some(
            if reverse {
                rows.remove(id)
            } else {
                rows.insert(id, value)
            },
        ),
        c matches ChangeDoc::Remove { id, value } ==> step(rows, c, reverse) == Some(
            if reverse {
                rows.insert(id, value)
            } else {
                rows.remove(id)
            },
        ),
        c matches ChangeDoc::Update { id, fields } ==> {
            let ws = writes(fields, reverse);
            &&& ws.len() == fields.len()
            &&& 0 <= i < ws.len() ==> ws[i].0 == place(fields[i]) && ws[i].1 == (if reverse {
                fields[i].old
            } else {
                fields[i].new
            })
            &&& step(rows, c, reverse) == (match tree::run(rows[id], ws) {
                Some(row) => Some(rows.insert(id, row)),
                None => None,
            })
        },
{
}

/// Changes are made one after another, each on what the ones before it left.
pub proof fn law_changes_are_made(
    rows: Rows,
    changes: Seq<ChangeDoc>,
    c: ChangeDoc,
    reverse: bool,
)
    ensures
        steps(rows, Seq::empty(), reverse) == Some(rows),
        steps(rows, changes.push(c), reverse) == (match steps(rows, changes, reverse) {
            Some(r) => step(r, c, reverse),
            None => None,
        }),
{
    assert(changes.push(c).drop_last() =~= changes);
}

/// A request is refused as it is read, refused as it is checked, or carried out;
/// what is told is all rows after all changes.
pub proof fn law_outcome(request: Doc, order: Order, e: Fault)
    ensures
        read_order(request) == Err::<Order, Fault>(e) ==> outcome(request) == Outcome::Refused(e),
        read_order(request) == Ok::<Order, Fault>(order) ==> outcome(request) == carry_out(order),
        check_changes(order.rows, order.changes, order.reverse, "/changes"@) == Some(e)
            ==> carry_out(order) == Outcome::Refused(e),
        check_changes(order.rows, order.changes, order.reverse, "/changes"@) is None && steps(
            order.rows,
            order.changes,
            order.reverse,
        ) is Some ==> carry_out(order) == Outcome::Done(
            steps(order.rows, order.changes, order.reverse)->0,
        ),
        check_changes(order.rows, order.changes, order.reverse, "/changes"@) is None && steps(
            order.rows,
            order.changes,
            order.reverse,
        ) is None ==> carry_out(order) is Refused,
{
}

/// The answer to a request is an object of nothing but the rows.
pub proof fn law_answer(d: Doc, rows: Rows)
    requires
        answers(d, rows),
    ensures
        exists|l: Seq<Doc>| #[trigger]
            rows::lists_rows(l, rows) && d == Tree::<Seq<char>>::Object(
                map!["rows"@ => Tree::List(l)],
            ),
{
}

/// Where one write takes away the parent object of a later one, the refusal
/// names the first such change and in it the first such field change.
pub proof fn law_loss_is_told(
    rows: Rows,
    changes: Seq<ChangeDoc>,
    reverse: bool,
    path: Seq<char>,
    i: int,
    n: nat,
)
    requires
        0 <= i < changes.len(),
        changes[i] matches ChangeDoc::Update { id, fields } && tree::first_lost(
            rows[id],
            writes(fields, reverse),
        ) == Some(n),
        forall|j: int|
            0 <= j < i ==> (#[trigger] changes[j] matches ChangeDoc::Update { id, fields }
                ==> tree::first_lost(rows[id], writes(fields, reverse)) is None),
    ensures
        loss(rows, changes, reverse, path) == Some(
            fault::clash(
                "parent path does not exist or is not an object"@,
                fault::item(fault::item(path, i as nat) + seq!['/'] + "fields"@, n) + seq!['/']
                    + "path"@,
            ),
        ),
{
    let f = loss_faults(rows, changes, reverse, path);
    assert forall|j: nat| j < i implies #[trigger] f(j) is None by {
        assert(changes[j as int] matches ChangeDoc::Update { id, fields } ==> tree::first_lost(
            rows[id],
            writes(fields, reverse),
        ) is None);
    }
    first::law_first_is_least(changes.len(), f, i as nat);
}

} // verus!
