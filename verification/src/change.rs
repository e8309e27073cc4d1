//! Changes to rows: how they are written in requests and answers.
use vstd::prelude::*;

use crate::fault;
use crate::fault::{child_path, item_path, join, quote, ApiError, Fault};
use crate::json;
use crate::json::{copy_ref, list, no_members, object, with, Json};
use crate::numeral;
use crate::pointer;
use crate::pointer::{canonical_pointer, parse_pointer};
use crate::rows;
use crate::text::{is_empty, text_eq};
use crate::tree::{Doc, Tree};
use crate::value;
use crate::value::{as_array, as_object, get, get_text};

verus! {

/// A change below one row: what stood at a path and what stands there then.
/// `None` means that nothing stands there, which is not the same as `null`.
#[derive(Debug)]
pub struct Field {
    pub path: String,
    pub old: Option<Json>,
    pub new: Option<Json>,
}

/// A change to one row.
#[derive(Debug)]
pub enum Change {
    Add { id: String, value: Json },
    Remove { id: String, value: Json },
    Update { id: String, fields: Vec<Field> },
}

/// A change below a row as a mathematical value.
pub struct FieldDoc {
    pub path: Seq<char>,
    pub old: Option<Doc>,
    pub new: Option<Doc>,
}

/// A change to a row as a mathematical value.
pub enum ChangeDoc {
    Add { id: Seq<char>, value: Doc },
    Remove { id: Seq<char>, value: Doc },
    Update { id: Seq<char>, fields: Seq<FieldDoc> },
}

impl View for Field {
    type V = FieldDoc;

    open spec fn view(&self) -> FieldDoc {
        FieldDoc {
            path: self.path@,
            old: json::option_doc(self.old),
            new: json::option_doc(self.new),
        }
    }
}

/// The field changes of a list.
pub open spec fn field_docs(fields: Seq<Field>) -> Seq<FieldDoc> {
    Seq::new(fields.len(), |i: int| fields[i]@)
}

impl View for Change {
    type V = ChangeDoc;

    open spec fn view(&self) -> ChangeDoc {
        match self {
            Change::Add { id, value } => ChangeDoc::Add { id: id@, value: value@ },
            Change::Remove { id, value } => ChangeDoc::Remove { id: id@, value: value@ },
            Change::Update { id, fields } => ChangeDoc::Update {
                id: id@,
                fields: field_docs(fields@),
            },
        }
    }
}

/// The changes of a list.
pub open spec fn change_docs(changes: Seq<Change>) -> Seq<ChangeDoc> {
    Seq::new(changes.len(), |i: int| changes[i]@)
}

impl Field {
    /// Both sides are values in order.
    pub open spec fn wf(&self) -> bool {
        json::option_wf(self.old) && json::option_wf(self.new)
    }
}

impl ChangeDoc {
    /// The id of the row.
    pub open spec fn id(self) -> Seq<char> {
        match self {
            ChangeDoc::Add { id, .. } => id,
            ChangeDoc::Remove { id, .. } => id,
            ChangeDoc::Update { id, .. } => id,
        }
    }
}

impl Change {
    /// All values are in order.
    pub open spec fn wf(&self) -> bool {
        match self {
            Change::Add { value, .. } => json::json_wf(*value),
            Change::Remove { value, .. } => json::json_wf(*value),
            Change::Update { fields, .. } => forall|i: int|
                0 <= i < fields@.len() ==> (#[trigger] fields@[i]).wf(),
        }
    }

    /// The id of the row.
    pub fn id(&self) -> (r: &String)
        ensures
            r@ == self@.id(),
    {
        match self {
            Change::Add { id, .. } => id,
            Change::Remove { id, .. } => id,
            Change::Update { id, .. } => id,
        }
    }
}

/// The paths of a list of field changes.
pub open spec fn paths_of(fields: Seq<FieldDoc>) -> Seq<Seq<char>> {
    Seq::new(fields.len(), |i: int| fields[i].path)
}

/// The row ids of a list of changes.
pub open spec fn ids_of(changes: Seq<ChangeDoc>) -> Seq<Seq<char>> {
    Seq::new(changes.len(), |i: int| changes[i].id())
}

/// The first index at which a text stands again.
pub open spec fn first_repeat(s: Seq<Seq<char>>) -> Option<nat>
    decreases s.len(),
{
    if s.len() == 0 {
        None
    } else {
        match first_repeat(s.drop_last()) {
            Some(i) => Some(i),
            None => if s.drop_last().contains(s.last()) {
                Some((s.len() - 1) as nat)
            } else {
                None
            },
        }
    }
}

/// What one item of a field list is read as.
pub open spec fn read_field(d: Doc, path: Seq<char>) -> Result<FieldDoc, Fault> {
    match d {
        Tree::Object(m) => match value::text_entry(m, "path"@) {
            None => Err(fault::bad("field path must be a string"@, fault::child(path, "path"@))),
            Some(text) => match pointer::pointer_path(text) {
                None => Err(
                    fault::bad(
                        "field path must be a non-empty RFC 6901 JSON Pointer"@,
                        fault::child(path, "path"@),
                    ),
                ),
                Some(p) => {
                    let old = value::entry(m, "old"@);
                    let new = value::entry(m, "new"@);
                    if old is None && new is None {
                        Err(fault::bad("field must contain old and/or new"@, path))
                    } else {
                        Ok(FieldDoc { path: pointer::pointer_text(p), old, new })
                    }
                },
            },
        },
        _ => Err(fault::bad("field must be an object"@, path)),
    }
}

/// Reads the items of the field list at `path`.
pub open spec fn field_reader(path: Seq<char>) -> spec_fn(nat, Doc) -> Result<FieldDoc, Fault> {
    |i: nat, d: Doc| read_field(d, fault::item(path, i))
}

/// What the value at `path` is read as: a list of field changes with different paths.
pub open spec fn read_fields(value: Option<Doc>, path: Seq<char>) -> Result<Seq<FieldDoc>, Fault> {
    match value {
        None => Err(fault::bad("missing required field"@, path)),
        Some(Tree::List(s)) => match rows::gather(s, field_reader(path)) {
            Err(e) => Err(e),
            Ok(fields) => match first_repeat(paths_of(fields)) {
                Some(i) => Err(
                    fault::bad(
                        "duplicate field path "@ + fault::quoted(fields[i as int].path),
                        fault::child(fault::item(path, i), "path"@),
                    ),
                ),
                None => Ok(fields),
            },
        },
        Some(_) => Err(fault::bad("fields must be an array"@, path)),
    }
}

/// What one item of a change list is read as.
pub open spec fn read_change(d: Doc, path: Seq<char>) -> Result<ChangeDoc, Fault> {
    match d {
        Tree::Object(m) => match value::text_entry(m, "id"@) {
            None => Err(fault::bad("change id must be a string"@, fault::child(path, "id"@))),
            Some(id) => if id.len() == 0 {
                Err(fault::bad("change id must be non-empty"@, fault::child(path, "id"@)))
            } else {
                match value::text_entry(m, "op"@) {
                    None => Err(
                        fault::bad("change op must be a string"@, fault::child(path, "op"@)),
                    ),
                    Some(op) => if op == "add"@ || op == "remove"@ {
                        match value::entry(m, "value"@) {
                            None => Err(
                                fault::bad(
                                    "missing required field"@,
                                    fault::child(path, "value"@),
                                ),
                            ),
                            Some(v) => if !(v is Object) {
                                Err(
                                    fault::bad(
                                        "change value must be an object"@,
                                        fault::child(path, "value"@),
                                    ),
                                )
                            } else if op == "add"@ {
                                Ok(ChangeDoc::Add { id, value: v })
                            } else {
                                Ok(ChangeDoc::Remove { id, value: v })
                            },
                        }
                    } else if op == "update"@ {
                        match read_fields(
                            value::entry(m, "fields"@),
                            fault::child(path, "fields"@),
                        ) {
                            Err(e) => Err(e),
                            Ok(fields) => Ok(ChangeDoc::Update { id, fields }),
                        }
                    } else {
                        Err(
                            fault::bad(
                                "unknown change op "@ + fault::quoted(op),
                                fault::child(path, "op"@),
                            ),
                        )
                    },
                }
            },
        },
        _ => Err(fault::bad("change must be an object"@, path)),
    }
}

/// Reads the items of the change list at `path`.
pub open spec fn change_reader(path: Seq<char>) -> spec_fn(nat, Doc) -> Result<ChangeDoc, Fault> {
    |i: nat, d: Doc| read_change(d, fault::item(path, i))
}

/// Adds a member where there is a value for it.
pub open spec fn with_option(m: Map<Seq<char>, Doc>, k: Seq<char>, v: Option<Doc>) -> Map<
    Seq<char>,
    Doc,
> {
    match v {
        Some(d) => m.insert(k, d),
        None => m,
    }
}

/// A field change as it is written out.
pub open spec fn field_doc(f: FieldDoc) -> Doc {
    Tree::Object(
        with_option(
            with_option(map!["path"@ => Tree::Text(f.path)], "old"@, f.old),
            "new"@,
            f.new,
        ),
    )
}

/// An addition or removal of a row as it is written out.
pub open spec fn row_change_doc(id: Seq<char>, op: Seq<char>, value: Doc) -> Doc {
    Tree::Object(map!["id"@ => Tree::Text(id), "op"@ => Tree::Text(op), "value"@ => value])
}

/// An update of a row as it is written out.
pub open spec fn update_change_doc(id: Seq<char>, fields: Seq<FieldDoc>) -> Doc {
    Tree::Object(
        map![
            "id"@ => Tree::Text(id),
            "op"@ => Tree::Text("update"@),
            "fields"@ => Tree::List(fields.map_values(|f: FieldDoc| field_doc(f)))
        ],
    )
}

/// A change as it is written out.
pub open spec fn change_doc(c: ChangeDoc) -> Doc {
    match c {
        ChangeDoc::Add { id, value } => row_change_doc(id, "add"@, value),
        ChangeDoc::Remove { id, value } => row_change_doc(id, "remove"@, value),
        ChangeDoc::Update { id, fields } => update_change_doc(id, fields),
    }
}

/// Changes as they are written out.
pub open spec fn changes_list(changes: Seq<ChangeDoc>) -> Seq<Doc> {
    changes.map_values(|c: ChangeDoc| change_doc(c))
}

/// Whether a field change names a place in canonical form and at least one side.
pub open spec fn valid_field(f: FieldDoc) -> bool {
    &&& pointer::pointer_path(f.path) is Some
    &&& pointer::pointer_path(f.path)->0.len() > 0
    &&& pointer::pointer_text(pointer::pointer_path(f.path)->0) == f.path
    &&& f.old is Some || f.new is Some
}

/// Whether a change can stand in a request.
pub open spec fn valid_change(c: ChangeDoc) -> bool {
    c.id().len() > 0 && match c {
        ChangeDoc::Add { value, .. } => value is Object,
        ChangeDoc::Remove { value, .. } => value is Object,
        ChangeDoc::Update { fields, .. } => first_repeat(paths_of(fields)) is None && forall|i: int|
            0 <= i < fields.len() ==> valid_field(#[trigger] fields[i]),
    }
}

/// A front part without repeats holds where the whole has none.
pub proof fn lemma_first_repeat(s: Seq<Seq<char>>)
    ensures
        match first_repeat(s) {
            Some(i) => 0 <= i < s.len() && s.take(i as int).contains(s[i as int]) && first_repeat(
                s.take(i as int),
            ) is None,
            None => forall|i: int, j: int| 0 <= i < j < s.len() ==> s[i] != s[j],
        },
    decreases s.len(),
{
    if s.len() > 0 {
        let front = s.drop_last();
        lemma_first_repeat(front);
        let n = s.len() - 1;
        match first_repeat(front) {
            Some(i) => {
                assert(s.take(i as int) =~= front.take(i as int));
            },
            None => {
                if front.contains(s.last()) {
                    assert(s.take(n) =~= front);
                } else {
                    assert forall|i: int, j: int| 0 <= i < j < s.len() implies s[i] != s[j] by {
                        assert(front[i] == s[i]);
                        if j < n {
                            assert(front[j] == s[j]);
                        } else {
                            assert(front.contains(front[i]));
                        }
                    }
                }
            },
        }
    }
}

/// Different texts do not repeat.
pub proof fn lemma_no_repeat(s: Seq<Seq<char>>)
    requires
        forall|i: int, j: int| 0 <= i < j < s.len() ==> s[i] != s[j],
    ensures
        first_repeat(s) is None,
{
    lemma_first_repeat(s);
    if first_repeat(s) is Some {
        let i = first_repeat(s)->0 as int;
        let t = s.take(i);
        let j = choose|j: int| 0 <= j < t.len() && t[j] == s[i];
        assert(s[j] == s[i]);
    }
}

/// The first repeat of a front part is that of the whole.
pub proof fn lemma_repeat_stays(s: Seq<Seq<char>>, n: int)
    requires
        0 <= n <= s.len(),
        first_repeat(s.take(n)) is Some,
    ensures
        first_repeat(s) == first_repeat(s.take(n)),
    decreases s.len() - n,
{
    if n < s.len() {
        assert(s.take(n + 1).drop_last() =~= s.take(n));
        lemma_repeat_stays(s, n + 1);
    } else {
        assert(s.take(n) =~= s);
    }
}

/// A field change that was read is valid.
pub proof fn lemma_read_field_valid(d: Doc, path: Seq<char>)
    requires
        read_field(d, path) is Ok,
    ensures
        valid_field(read_field(d, path)->Ok_0),
{
    let m = d->Object_0;
    let text = value::text_entry(m, "path"@)->0;
    let p = pointer::pointer_path(text)->0;
    pointer::lemma_segments_nonempty(text.drop_first());
    pointer::law_pointer_round_trip(p);
}

/// A change that was read is valid.
pub proof fn lemma_read_change_valid(d: Doc, path: Seq<char>)
    requires
        read_change(d, path) is Ok,
    ensures
        valid_change(read_change(d, path)->Ok_0),
{
    if let ChangeDoc::Update { id, fields } = read_change(d, path)->Ok_0 {
        let m = d->Object_0;
        let s = value::entry(m, "fields"@)->0->List_0;
        let f = field_reader(fault::child(path, "fields"@));
        rows::lemma_gather_item(s, f);
        assert forall|i: int| 0 <= i < fields.len() implies valid_field(#[trigger] fields[i]) by {
            assert(f(i as nat, s[i]) == Ok::<FieldDoc, Fault>(fields[i]));
            lemma_read_field_valid(
                s[i],
                fault::item(fault::child(path, "fields"@), i as nat),
            );
        }
    }
}

proof fn lemma_field_round_trip(f: FieldDoc, path: Seq<char>)
    requires
        valid_field(f),
    ensures
        read_field(field_doc(f), path) == Ok::<FieldDoc, Fault>(f),
{
    reveal_strlit("path");
    reveal_strlit("old");
    reveal_strlit("new");
    assert("path"@.len() == 4 && "old"@.len() == 3 && "new"@.len() == 3);
    assert("old"@[0] == 'o' && "new"@[0] == 'n');
}

/// A change that is written out is read back as it was.
pub proof fn law_change_round_trip(c: ChangeDoc, path: Seq<char>)
    requires
        valid_change(c),
    ensures
        read_change(change_doc(c), path) == Ok::<ChangeDoc, Fault>(c),
{
    reveal_strlit("id");
    reveal_strlit("op");
    reveal_strlit("value");
    reveal_strlit("fields");
    reveal_strlit("add");
    reveal_strlit("remove");
    reveal_strlit("update");
    assert("id"@[0] == 'i' && "op"@[0] == 'o' && "value"@[0] == 'v' && "fields"@[0] == 'f');
    assert("add"@[0] == 'a' && "remove"@[0] == 'r' && "update"@[0] == 'u');
    if let ChangeDoc::Update { id, fields } = c {
        let l = fields.map_values(|f: FieldDoc| field_doc(f));
        let r = field_reader(fault::child(path, "fields"@));
        assert forall|i: int| 0 <= i < l.len() implies r(i as nat, #[trigger] l[i]) == Ok::<
            FieldDoc,
            Fault,
        >(fields[i]) by {
            lemma_field_round_trip(
                fields[i],
                fault::item(fault::child(path, "fields"@), i as nat),
            );
        }
        rows::lemma_gather_all(l, r, fields);
    }
}

/// Changes that are written out are read back as they were.
pub proof fn law_changes_round_trip(changes: Seq<ChangeDoc>, path: Seq<char>)
    requires
        forall|i: int| 0 <= i < changes.len() ==> valid_change(#[trigger] changes[i]),
    ensures
        rows::gather(changes_list(changes), change_reader(path)) == Ok::<Seq<ChangeDoc>, Fault>(
            changes,
        ),
{
    let l = changes_list(changes);
    let f = change_reader(path);
    assert forall|i: int| 0 <= i < l.len() implies f(i as nat, #[trigger] l[i]) == Ok::<
        ChangeDoc,
        Fault,
    >(changes[i]) by {
        law_change_round_trip(changes[i], fault::item(path, i as nat));
    }
    rows::lemma_gather_all(l, f, changes);
}

/// Reads one item of a field list.
pub fn parse_field(item: &Json, path: &str) -> (r: Result<Field, ApiError>)
    requires
        json::json_wf(*item),
    ensures
        match r {
            Ok(f) => read_field(item@, path@) == Ok::<FieldDoc, Fault>(f@) && f.wf(),
            Err(e) => read_field(item@, path@) == Err::<FieldDoc, Fault>(e@),
        },
{
    let m = match as_object(item) {
        Some(m) => m,
        None => {
            return Err(ApiError::bad_request("field must be an object", path));
        },
    };
    let pointer_path = child_path(path, "path");
    let text = match get_text(m, "path") {
        Some(text) => text,
        None => {
            return Err(
                ApiError::bad_request("field path must be a string", pointer_path.as_str()),
            );
        },
    };
    let segments = match parse_pointer(text.as_str()) {
        Some(segments) => segments,
        None => {
            return Err(
                ApiError::bad_request(
                    "field path must be a non-empty RFC 6901 JSON Pointer",
                    pointer_path.as_str(),
                ),
            );
        },
    };
    let old_value = copy_ref(get(m, "old"));
    let new_value = copy_ref(get(m, "new"));
    if old_value.is_none() && new_value.is_none() {
        return Err(ApiError::bad_request("field must contain old and/or new", path));
    }
    Ok(
        Field {
            path: canonical_pointer(segments.as_slice()),
            old: old_value,
            new: new_value,
        },
    )
}

/// The first index at which the path of a field change stands again.
fn repeated_path(fields: &Vec<Field>) -> (r: Option<usize>)
    ensures
        match r {
            Some(i) => i < fields@.len() && first_repeat(paths_of(field_docs(fields@))) == Some(
                i as nat,
            ),
            None => first_repeat(paths_of(field_docs(fields@))) is None,
        },
{
    let ghost s = paths_of(field_docs(fields@));
    assert(s.take(0) =~= Seq::empty());
    for i in 0..fields.len()
        invariant
            s == paths_of(field_docs(fields@)),
            first_repeat(s.take(i as int)) is None,
    {
        assert(s.take(i + 1).drop_last() =~= s.take(i as int));
        for j in 0..i
            invariant
                s == paths_of(field_docs(fields@)),
                i < fields@.len(),
                forall|k: int| 0 <= k < j ==> s[k] != s[i as int],
                first_repeat(s.take(i as int)) is None,
                s.take(i + 1).drop_last() == s.take(i as int),
        {
            if text_eq(fields[j].path.as_str(), fields[i].path.as_str()) {
                proof {
                    assert(s.take(i as int)[j as int] == s[i as int]);
                    assert(s.take(i as int).contains(s[i as int]));
                    lemma_repeat_stays(s, i + 1);
                }
                return Some(i);
            }
        }
        assert(!s.take(i as int).contains(s[i as int]));
    }
    assert(s.take(fields@.len() as int) =~= s);
    None
}

/// The first index at which the row id of a change stands again.
pub fn repeated_id(changes: &Vec<Change>) -> (r: Option<usize>)
    ensures
        match r {
            Some(i) => i < changes@.len() && first_repeat(ids_of(change_docs(changes@))) == Some(
                i as nat,
            ),
            None => first_repeat(ids_of(change_docs(changes@))) is None,
        },
{
    let ghost s = ids_of(change_docs(changes@));
    assert(s.take(0) =~= Seq::empty());
    for i in 0..changes.len()
        invariant
            s == ids_of(change_docs(changes@)),
            first_repeat(s.take(i as int)) is None,
    {
        assert(s.take(i + 1).drop_last() =~= s.take(i as int));
        for j in 0..i
            invariant
                s == ids_of(change_docs(changes@)),
                i < changes@.len(),
                forall|k: int| 0 <= k < j ==> s[k] != s[i as int],
                first_repeat(s.take(i as int)) is None,
                s.take(i + 1).drop_last() == s.take(i as int),
        {
            if text_eq(changes[j].id().as_str(), changes[i].id().as_str()) {
                proof {
                    assert(s.take(i as int)[j as int] == s[i as int]);
                    assert(s.take(i as int).contains(s[i as int]));
                    lemma_repeat_stays(s, i + 1);
                }
                return Some(i);
            }
        }
        assert(!s.take(i as int).contains(s[i as int]));
    }
    assert(s.take(changes@.len() as int) =~= s);
    None
}

/// Reads and checks a list of field changes.
fn parse_fields(value: Option<&Json>, path: &str) -> (r: Result<Vec<Field>, ApiError>)
    requires
        value matches Some(j) ==> json::json_wf(*j),
    ensures
        ({
            let doc = json::ref_doc(value);
            match r {
                Ok(v) => read_fields(doc, path@) == Ok::<Seq<FieldDoc>, Fault>(field_docs(v@))
                    && forall|i: int| 0 <= i < v@.len() ==> (#[trigger] v@[i]).wf(),
                Err(e) => read_fields(doc, path@) == Err::<Seq<FieldDoc>, Fault>(e@),
            }
        }),
{
    let list = match value {
        Some(list) => list,
        None => {
            return Err(ApiError::bad_request("missing required field", path));
        },
    };
    let array = match as_array(list) {
        Some(array) => array,
        None => {
            return Err(ApiError::bad_request("fields must be an array", path));
        },
    };
    let mut fields: Vec<Field> = Vec::new();
    let ghost docs = json::list_docs(array@);
    let ghost f = field_reader(path@);
    assert(docs.take(0) =~= Seq::empty());
    assert(field_docs(fields@) =~= Seq::empty());
    for i in 0..array.len()
        invariant
            forall|j: int| 0 <= j < array@.len() ==> json::json_wf(#[trigger] array@[j]),
            docs == json::list_docs(array@),
            f == field_reader(path@),
            value == Some(list),
            list@ == Tree::List(docs),
            rows::gather(docs.take(i as int), f) == Ok::<Seq<FieldDoc>, Fault>(
                field_docs(fields@),
            ),
            forall|j: int| 0 <= j < fields@.len() ==> (#[trigger] fields@[j]).wf(),
    {
        assert(docs.take(i + 1).drop_last() =~= docs.take(i as int));
        let here = item_path(path, i);
        match parse_field(&array[i], here.as_str()) {
            Err(e) => {
                proof {
                    rows::lemma_gather_stops(docs, i + 1, f);
                }
                return Err(e);
            },
            Ok(field) => {
                let ghost before = field_docs(fields@);
                let ghost x = field@;
                fields.push(field);
                assert(field_docs(fields@) =~= before.push(x));
            },
        }
    }
    assert(docs.take(array@.len() as int) =~= docs);
    match repeated_path(&fields) {
        Some(i) => {
            Err(
                ApiError::bad_request(
                    join("duplicate field path ", quote(fields[i].path.as_str()).as_str()).as_str(),
                    child_path(item_path(path, i).as_str(), "path").as_str(),
                ),
            )
        },
        None => Ok(fields),
    }
}

/// Reads one item of a change list.
pub fn parse_change(item: &Json, path: &str) -> (r: Result<Change, ApiError>)
    requires
        json::json_wf(*item),
    ensures
        match r {
            Ok(c) => read_change(item@, path@) == Ok::<ChangeDoc, Fault>(c@) && c.wf(),
            Err(e) => read_change(item@, path@) == Err::<ChangeDoc, Fault>(e@),
        },
{
    let m = match as_object(item) {
        Some(m) => m,
        None => {
            return Err(ApiError::bad_request("change must be an object", path));
        },
    };
    let id_path = child_path(path, "id");
    let id = match get_text(m, "id") {
        Some(id) => id,
        None => {
            return Err(ApiError::bad_request("change id must be a string", id_path.as_str()));
        },
    };
    if is_empty(id.as_str()) {
        return Err(ApiError::bad_request("change id must be non-empty", id_path.as_str()));
    }
    let op_path = child_path(path, "op");
    let op = match get_text(m, "op") {
        Some(op) => op,
        None => {
            return Err(ApiError::bad_request("change op must be a string", op_path.as_str()));
        },
    };
    let add = text_eq(op.as_str(), "add");
    if add || text_eq(op.as_str(), "remove") {
        let value_path = child_path(path, "value");
        match get(m, "value") {
            None => Err(ApiError::bad_request("missing required field", value_path.as_str())),
            Some(v) => {
                if as_object(v).is_none() {
                    Err(
                        ApiError::bad_request(
                            "change value must be an object",
                            value_path.as_str(),
                        ),
                    )
                } else if add {
                    Ok(Change::Add { id: id.clone(), value: v.copy() })
                } else {
                    Ok(Change::Remove { id: id.clone(), value: v.copy() })
                }
            },
        }
    } else if text_eq(op.as_str(), "update") {
        match parse_fields(get(m, "fields"), child_path(path, "fields").as_str()) {
            Err(e) => Err(e),
            Ok(fields) => Ok(Change::Update { id: id.clone(), fields }),
        }
    } else {
        Err(
            ApiError::bad_request(
                join("unknown change op ", quote(op.as_str()).as_str()).as_str(),
                op_path.as_str(),
            ),
        )
    }
}

/// Writes an addition or a removal of a row.
pub fn row_change(id: &str, op: &str, value: &Json) -> (r: Json)
    requires
        json::json_wf(*value),
    ensures
        json::json_wf(r),
        r@ == row_change_doc(id@, op@, value@),
{
    let m = with(no_members(), "id", Json::String(id.to_owned()));
    let m = with(m, "op", Json::String(op.to_owned()));
    object(with(m, "value", value.copy()))
}

/// Writes a field change.
pub fn field_json(field: &Field) -> (r: Json)
    requires
        field.wf(),
    ensures
        json::json_wf(r),
        r@ == field_doc(field@),
{
    let mut m = with(no_members(), "path", Json::String(field.path.clone()));
    if let Some(v) = &field.old {
        m = with(m, "old", v.copy());
    }
    if let Some(v) = &field.new {
        m = with(m, "new", v.copy());
    }
    object(m)
}

/// Writes an update of a row.
pub fn update_change(id: &str, fields: &[Field]) -> (r: Json)
    requires
        forall|i: int| 0 <= i < fields@.len() ==> (#[trigger] fields@[i]).wf(),
    ensures
        json::json_wf(r),
        r@ == update_change_doc(id@, field_docs(fields@)),
{
    let mut items: Vec<Json> = Vec::new();
    for i in 0..fields.len()
        invariant
            forall|j: int| 0 <= j < fields@.len() ==> (#[trigger] fields@[j]).wf(),
            items@.len() == i,
            forall|j: int| 0 <= j < i ==> json::json_wf(#[trigger] items@[j]),
            forall|j: int| 0 <= j < i ==> (#[trigger] items@[j])@ == field_doc(fields@[j]@),
    {
        items.push(field_json(&fields[i]));
    }
    assert(json::list_docs(items@) =~= field_docs(fields@).map_values(|f: FieldDoc| field_doc(f)));
    let m = with(no_members(), "id", Json::String(id.to_owned()));
    let m = with(m, "op", Json::String("update".to_owned()));
    object(with(m, "fields", list(items)))
}

/// A list of texts has a first repeat exactly where a text stands that stood
/// before, and none did before it.
pub proof fn law_first_repeat(s: Seq<Seq<char>>, i: nat)
    ensures
        first_repeat(s) is None <==> s.no_duplicates(),
        first_repeat(s) == Some(i) <==> i < s.len() && s.take(i as int).contains(s[i as int])
            && s.take(i as int).no_duplicates(),
{
    lemma_first_repeat(s);
    if s.no_duplicates() {
        lemma_no_repeat(s);
    }
    if first_repeat(s) is None {
        assert forall|x: int, y: int| 0 <= x < s.len() && 0 <= y < s.len() && x != y implies s[x]
            != s[y] by {
            if x < y {
                assert(s[x] != s[y]);
            } else {
                assert(s[y] != s[x]);
            }
        }
    }
    if let Some(n) = first_repeat(s) {
        let t = s.take(n as int);
        lemma_first_repeat(t);
        assert forall|x: int, y: int| 0 <= x < t.len() && 0 <= y < t.len() && x != y implies t[x]
            != t[y] by {
            if x < y {
                assert(t[x] != t[y]);
            } else {
                assert(t[y] != t[x]);
            }
        }
    }
    if i < s.len() && s.take(i as int).contains(s[i as int]) && s.take(i as int).no_duplicates() {
        let t = s.take(i as int);
        lemma_no_repeat(t);
        let more = s.take(i + 1int);
        assert(more.drop_last() =~= t);
        assert(more.last() == s[i as int]);
        lemma_repeat_stays(s, i + 1int);
    }
}

/// An item is a field change exactly if it is an object with a JSON Pointer at
/// `path` and something at `old` or at `new`; what stands there is taken as it
/// is, and what does not stand there is missing, not null.
pub proof fn law_field_is_read(d: Doc, path: Seq<char>, f: FieldDoc)
    ensures
        read_field(d, path) == Ok::<FieldDoc, Fault>(f) <==> (d matches Tree::Object(m)
            && m.contains_key("path"@) && m["path"@] == Tree::<Seq<char>>::Text(f.path)
            && pointer::pointer_path(f.path) is Some && f.old == (if m.contains_key("old"@) {
            Some(m["old"@])
        } else {
            None
        }) && f.new == (if m.contains_key("new"@) {
            Some(m["new"@])
        } else {
            None
        }) && (m.contains_key("old"@) || m.contains_key("new"@))),
{
    if let Tree::Object(m) = d {
        if let Some(t) = value::text_entry(m, "path"@) {
            if pointer::pointer_path(t) is Some {
                pointer::law_pointer_is_canonical(t);
            }
        }
    }
}

/// An item that is no field change is refused with 400, at the part that is
/// wrong.
pub proof fn law_bad_field(d: Doc, path: Seq<char>)
    ensures
        !(d is Object) ==> read_field(d, path) == Err::<FieldDoc, Fault>(
            fault::bad("field must be an object"@, path),
        ),
        d matches Tree::Object(m) ==> {
            let text = m.contains_key("path"@) && m["path"@] is Text;
            &&& !text ==> read_field(d, path) == Err::<FieldDoc, Fault>(
                fault::bad("field path must be a string"@, path + seq!['/'] + "path"@),
            )
            &&& text && pointer::pointer_path(m["path"@]->Text_0) is None ==> read_field(d, path)
                == Err::<FieldDoc, Fault>(
                fault::bad(
                    "field path must be a non-empty RFC 6901 JSON Pointer"@,
                    path + seq!['/'] + "path"@,
                ),
            )
            &&& text && pointer::pointer_path(m["path"@]->Text_0) is Some && !m.contains_key("old"@)
                && !m.contains_key("new"@) ==> read_field(d, path) == Err::<FieldDoc, Fault>(
                fault::bad("field must contain old and/or new"@, path),
            )
        },
{
}

/// The fields of an update are those of its list, one for each item, and no two
/// have the same path.
pub proof fn law_fields_are_read(value: Option<Doc>, path: Seq<char>, fields: Seq<FieldDoc>)
    ensures
        read_fields(value, path) == Ok::<Seq<FieldDoc>, Fault>(fields) <==> (value matches Some(
            Tree::List(s),
        ) && s.len() == fields.len() && (forall|i: int|
            0 <= i < s.len() ==> read_field(
                #[trigger] s[i],
                path + seq!['/'] + numeral::dec_text(i as nat),
            ) == Ok::<FieldDoc, Fault>(fields[i])) && forall|i: int, j: int|
            0 <= i < j < fields.len() ==> (#[trigger] fields[i]).path != (#[trigger] fields[j]).path),
{
    let f = field_reader(path);
    let ps = paths_of(fields);
    lemma_first_repeat(ps);
    if let Some(Tree::List(s)) = value {
        if read_fields(value, path) == Ok::<Seq<FieldDoc>, Fault>(fields) {
            rows::lemma_gather_item(s, f);
            assert forall|i: int| 0 <= i < s.len() implies read_field(
                #[trigger] s[i],
                fault::item(path, i as nat),
            ) == Ok::<FieldDoc, Fault>(fields[i]) by {
                assert(f(i as nat, s[i]) == Ok::<FieldDoc, Fault>(fields[i]));
            }
            assert forall|i: int, j: int| 0 <= i < j < fields.len() implies (
            #[trigger] fields[i]).path != (#[trigger] fields[j]).path by {
                assert(ps[i] != ps[j]);
            }
        }
        if s.len() == fields.len() && (forall|i: int|
            0 <= i < s.len() ==> read_field(#[trigger] s[i], fault::item(path, i as nat)) == Ok::<
                FieldDoc,
                Fault,
            >(fields[i])) && forall|i: int, j: int|
            0 <= i < j < fields.len() ==> (#[trigger] fields[i]).path != (
            #[trigger] fields[j]).path {
            assert forall|i: int| 0 <= i < s.len() implies f(i as nat, #[trigger] s[i]) == Ok::<
                FieldDoc,
                Fault,
            >(fields[i]) by {
                assert(read_field(s[i], fault::item(path, i as nat)) == Ok::<FieldDoc, Fault>(
                    fields[i],
                ));
            }
            rows::lemma_gather_all(s, f, fields);
            assert forall|i: int, j: int| 0 <= i < j < ps.len() implies ps[i] != ps[j] by {
                assert(fields[i].path != fields[j].path);
            }
            lemma_no_repeat(ps);
        }
    }
}

/// What is no list of field changes is refused with 400: the first item that is
/// none decides, otherwise the first path that stands again.
pub proof fn law_bad_fields(s: Seq<Doc>, other: Doc, path: Seq<char>, n: int, fields: Seq<FieldDoc>)
    ensures
        read_fields(None, path) == Err::<Seq<FieldDoc>, Fault>(
            fault::bad("missing required field"@, path),
        ),
        !(other is List) ==> read_fields(Some(other), path) == Err::<Seq<FieldDoc>, Fault>(
            fault::bad("fields must be an array"@, path),
        ),
        0 <= n < s.len() && read_field(s[n], fault::item(path, n as nat)) is Err && (forall|i: int|
            0 <= i < n ==> read_field(#[trigger] s[i], fault::item(path, i as nat)) is Ok)
            ==> read_fields(Some(Tree::List(s)), path) == Err::<Seq<FieldDoc>, Fault>(
            read_field(s[n], fault::item(path, n as nat))->Err_0,
        ),
        s.len() == fields.len() && (forall|i: int|
            0 <= i < s.len() ==> read_field(#[trigger] s[i], fault::item(path, i as nat)) == Ok::<
                FieldDoc,
                Fault,
            >(fields[i])) && 0 <= n < s.len() && (exists|j: int|
            0 <= j < n && (#[trigger] fields[j]).path == fields[n].path) && (forall|i: int, j: int|
            0 <= i < j < n ==> (#[trigger] fields[i]).path != (#[trigger] fields[j]).path)
            ==> read_fields(Some(Tree::List(s)), path) == Err::<Seq<FieldDoc>, Fault>(
            fault::bad(
                "duplicate field path "@ + fault::quoted(fields[n].path),
                fault::item(path, n as nat) + seq!['/'] + "path"@,
            ),
        ),
{
    let f = field_reader(path);
    if 0 <= n < s.len() && read_field(s[n], fault::item(path, n as nat)) is Err && forall|i: int|
        0 <= i < n ==> read_field(#[trigger] s[i], fault::item(path, i as nat)) is Ok {
        let e = read_field(s[n], fault::item(path, n as nat))->Err_0;
        assert(f(n as nat, s[n]) == Err::<FieldDoc, Fault>(e));
        assert forall|j: int| 0 <= j < n implies f(j as nat, #[trigger] s[j]) is Ok by {
            assert(read_field(s[j], fault::item(path, j as nat)) is Ok);
        }
        rows::law_gather(s, f, e);
    }
    if s.len() == fields.len() && (forall|i: int|
        0 <= i < s.len() ==> read_field(#[trigger] s[i], fault::item(path, i as nat)) == Ok::<
            FieldDoc,
            Fault,
        >(fields[i])) && 0 <= n < s.len() && (exists|j: int|
        0 <= j < n && (#[trigger] fields[j]).path == fields[n].path) && (forall|i: int, j: int|
        0 <= i < j < n ==> (#[trigger] fields[i]).path != (#[trigger] fields[j]).path) {
        assert forall|i: int| 0 <= i < s.len() implies f(i as nat, #[trigger] s[i]) == Ok::<
            FieldDoc,
            Fault,
        >(fields[i]) by {
            assert(read_field(s[i], fault::item(path, i as nat)) == Ok::<FieldDoc, Fault>(
                fields[i],
            ));
        }
        rows::lemma_gather_all(s, f, fields);
        let ps = paths_of(fields);
        let k = choose|k: int| 0 <= k < n && (#[trigger] fields[k]).path == fields[n].path;
        assert(ps[k] == ps[n]);
        assert forall|i: int, j: int| 0 <= i < j < n implies ps[i] != ps[j] by {
            assert(fields[i].path != fields[j].path);
        }
        lemma_repeat_at(ps, n, k);
    }
}

/// The first repeat of a list is where a text stands again for the first time.
pub proof fn lemma_repeat_at(ps: Seq<Seq<char>>, n: int, k: int)
    requires
        0 <= k < n < ps.len(),
        ps[k] == ps[n],
        forall|i: int, j: int| 0 <= i < j < n ==> ps[i] != ps[j],
    ensures
        first_repeat(ps) == Some(n as nat),
{
    let t = ps.take(n);
    assert(t[k] == ps[n]);
    assert forall|x: int, y: int| 0 <= x < t.len() && 0 <= y < t.len() && x != y implies t[x]
        != t[y] by {
        if x < y {
            assert(ps[x] != ps[y]);
        } else {
            assert(ps[y] != ps[x]);
        }
    }
    law_first_repeat(ps, n as nat);
}

/// An item is a change exactly if it is an object with a non-empty text at `id`
/// and one of three operations at `op`: `add` and `remove` come with the row
/// itself at `value`, `update` with field changes at `fields`.
pub proof fn law_change_is_read(d: Doc, path: Seq<char>, c: ChangeDoc)
    ensures
        read_change(d, path) == Ok::<ChangeDoc, Fault>(c) <==> (d matches Tree::Object(m)
            && m.contains_key("id"@) && m["id"@] == Tree::<Seq<char>>::Text(c.id()) && c.id().len() > 0
            && m.contains_key("op"@) && match c {
            ChangeDoc::Add { value, .. } => m["op"@] == Tree::<Seq<char>>::Text("add"@)
                && m.contains_key("value"@) && m["value"@] == value && value is Object,
            ChangeDoc::Remove { value, .. } => m["op"@] == Tree::<Seq<char>>::Text("remove"@)
                && m.contains_key("value"@) && m["value"@] == value && value is Object,
            ChangeDoc::Update { fields, .. } => m["op"@] == Tree::<Seq<char>>::Text("update"@)
                && m.contains_key("fields"@) && read_fields(
                Some(m["fields"@]),
                path + seq!['/'] + "fields"@,
            ) == Ok::<Seq<FieldDoc>, Fault>(fields),
        }),
{
    reveal_strlit("add");
    reveal_strlit("remove");
    reveal_strlit("update");
    assert("add"@[0] == 'a' && "remove"@[0] == 'r' && "update"@[0] == 'u');
}

/// The id of a change is the one that it names.
pub proof fn law_ids(id: Seq<char>, value: Doc, fields: Seq<FieldDoc>, changes: Seq<ChangeDoc>, i: int)
    ensures
        (ChangeDoc::Add { id, value }).id() == id,
        (ChangeDoc::Remove { id, value }).id() == id,
        (ChangeDoc::Update { id, fields }).id() == id,
        ids_of(changes).len() == changes.len(),
        0 <= i < changes.len() ==> ids_of(changes)[i] == changes[i].id(),
        paths_of(fields).len() == fields.len(),
        0 <= i < fields.len() ==> paths_of(fields)[i] == fields[i].path,
{
}

/// An item that is no change is refused with 400, at the part that is wrong.
pub proof fn law_bad_change(d: Doc, path: Seq<char>)
    ensures
        !(d is Object) ==> read_change(d, path) == Err::<ChangeDoc, Fault>(
            fault::bad("change must be an object"@, path),
        ),
        d matches Tree::Object(m) ==> {
            let named = m.contains_key("id"@) && m["id"@] is Text;
            let good = named && m["id"@]->Text_0.len() > 0;
            let told = good && m.contains_key("op"@) && m["op"@] is Text;
            let op = m["op"@]->Text_0;
            let whole = told && (op == "add"@ || op == "remove"@);
            &&& !named ==> read_change(d, path) == Err::<ChangeDoc, Fault>(
                fault::bad("change id must be a string"@, path + seq!['/'] + "id"@),
            )
            &&& named && m["id"@]->Text_0.len() == 0 ==> read_change(d, path) == Err::<
                ChangeDoc,
                Fault,
            >(fault::bad("change id must be non-empty"@, path + seq!['/'] + "id"@))
            &&& good && !told ==> read_change(d, path) == Err::<ChangeDoc, Fault>(
                fault::bad("change op must be a string"@, path + seq!['/'] + "op"@),
            )
            &&& whole && !m.contains_key("value"@) ==> read_change(d, path) == Err::<
                ChangeDoc,
                Fault,
            >(fault::bad("missing required field"@, path + seq!['/'] + "value"@))
            &&& whole && m.contains_key("value"@) && !(m["value"@] is Object) ==> read_change(d, path)
                == Err::<ChangeDoc, Fault>(
                fault::bad("change value must be an object"@, path + seq!['/'] + "value"@),
            )
            &&& told && op == "update"@ ==> (read_fields(
                if m.contains_key("fields"@) {
                    Some(m["fields"@])
                } else {
                    None
                },
                path + seq!['/'] + "fields"@,
            ) matches Err(e) ==> read_change(d, path) == Err::<ChangeDoc, Fault>(e))
            &&& told && !whole && op != "update"@ ==> read_change(d, path) == Err::<ChangeDoc, Fault>(
                fault::bad(
                    "unknown change op "@ + fault::quoted(op),
                    path + seq!['/'] + "op"@,
                ),
            )
        },
{
    reveal_strlit("add");
    reveal_strlit("remove");
    reveal_strlit("update");
    assert("add"@[0] == 'a' && "remove"@[0] == 'r' && "update"@[0] == 'u');
}

/// A field change is told as an object of its path and of the sides that are
/// there; a side that is missing is left out.
pub proof fn law_field_is_told(f: FieldDoc)
    ensures
        field_doc(f) matches Tree::Object(n) && (forall|k: Seq<char>| #[trigger]
            n.contains_key(k) <==> k == "path"@ || (k == "old"@ && f.old is Some) || (k == "new"@
                && f.new is Some)) && n["path"@] == Tree::<Seq<char>>::Text(f.path) && (f.old is Some
            ==> n["old"@] == f.old->0) && (f.new is Some ==> n["new"@] == f.new->0),
{
    reveal_strlit("path");
    reveal_strlit("old");
    reveal_strlit("new");
    assert("path"@.len() == 4 && "old"@.len() == 3 && "new"@.len() == 3);
    assert("old"@[0] == 'o' && "new"@[0] == 'n');
}

/// A change is told as an object of its id, its operation, and the row itself or
/// all its field changes in their order.
pub proof fn law_change_is_told(id: Seq<char>, value: Doc, fields: Seq<FieldDoc>)
    ensures
        change_doc(ChangeDoc::Add { id, value }) == Tree::<Seq<char>>::Object(
            map!["id"@ => Tree::Text(id), "op"@ => Tree::Text("add"@), "value"@ => value],
        ),
        change_doc(ChangeDoc::Remove { id, value }) == Tree::<Seq<char>>::Object(
            map!["id"@ => Tree::Text(id), "op"@ => Tree::Text("remove"@), "value"@ => value],
        ),
        change_doc(ChangeDoc::Update { id, fields }) == Tree::<Seq<char>>::Object(
            map![
                "id"@ => Tree::Text(id),
                "op"@ => Tree::Text("update"@),
                "fields"@ => Tree::List(Seq::new(fields.len(), |i: int| field_doc(fields[i])))
            ],
        ),
{
    assert(fields.map_values(|f: FieldDoc| field_doc(f)) =~= Seq::new(
        fields.len(),
        |i: int| field_doc(fields[i]),
    ));
}

/// Every change is told, in their order.
pub proof fn law_changes_are_told(changes: Seq<ChangeDoc>, i: int)
    ensures
        changes_list(changes).len() == changes.len(),
        0 <= i < changes.len() ==> changes_list(changes)[i] == change_doc(changes[i]),
{
}

/// Field changes and changes stand for all that they hold, in their order.
pub proof fn law_changes_stand_for(
    f: Field,
    id: String,
    value: Json,
    fields: Vec<Field>,
    changes: Seq<Change>,
    i: int,
)
    ensures
        f@.path == f.path@ && f@.old == json::option_doc(f.old) && f@.new == json::option_doc(f.new),
        (Change::Add { id, value })@ == (ChangeDoc::Add { id: id@, value: value@ }),
        (Change::Remove { id, value })@ == (ChangeDoc::Remove { id: id@, value: value@ }),
        (Change::Update { id, fields })@ == (ChangeDoc::Update {
            id: id@,
            fields: field_docs(fields@),
        }),
        field_docs(fields@).len() == fields@.len(),
        0 <= i < fields@.len() ==> field_docs(fields@)[i] == fields@[i]@,
        change_docs(changes).len() == changes.len(),
        0 <= i < changes.len() ==> change_docs(changes)[i] == changes[i]@,
{
}

} // verus!
