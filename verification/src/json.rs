//! JSON values, with numbers kept as they were written.
use vstd::prelude::*;

use crate::sorted_map;
use crate::sorted_map::SortedMap;
use crate::text::text_eq;
use crate::tree::{Doc, Tree};

verus! {

/// A JSON value. A number is its text, so no precision is lost.
#[derive(Debug)]
pub enum Json {
    Null,
    Bool(bool),
    Number(String),
    String(String),
    Array(Vec<Json>),
    Object(SortedMap<Json>),
}

/// The document that a JSON value stands for.
pub open spec fn doc_of(j: Json) -> Doc
    decreases j,
{
    match j {
        Json::Null => Tree::Null,
        Json::Bool(b) => Tree::Bool(b),
        Json::Number(s) => Tree::Num(s@),
        Json::String(s) => Tree::Text(s@),
        Json::Array(v) => Tree::List(
            Seq::new(
                v@.len(),
                |i: int|
                    if 0 <= i < v@.len() {
                        doc_of(v@[i])
                    } else {
                        Tree::Null
                    },
            ),
        ),
        Json::Object(m) => Tree::Object(
            Map::new(
                |k: Seq<char>| sorted_map::keys_of(m.entries@).contains(k),
                |k: Seq<char>|
                    {
                        let i = sorted_map::position(m.entries@, k);
                        if 0 <= i < m.entries@.len() {
                            doc_of(m.entries@[i].1)
                        } else {
                            Tree::Null
                        }
                    },
            ),
        ),
    }
}

/// Whether the keys of every object in a value stand in ascending order.
pub open spec fn json_wf(j: Json) -> bool
    decreases j,
{
    match j {
        Json::Array(v) => forall|i: int| 0 <= i < v@.len() ==> json_wf(#[trigger] v@[i]),
        Json::Object(m) => m.wf() && forall|i: int|
            0 <= i < m.entries@.len() ==> json_wf((#[trigger] m.entries@[i]).1),
        _ => true,
    }
}

impl View for Json {
    type V = Doc;

    open spec fn view(&self) -> Doc {
        doc_of(*self)
    }
}

/// The documents of a list of values.
pub open spec fn list_docs(v: Seq<Json>) -> Seq<Doc> {
    Seq::new(v.len(), |i: int| doc_of(v[i]))
}

/// The documents of a map of values.
pub open spec fn map_docs(m: Map<Seq<char>, Json>) -> Map<Seq<char>, Doc> {
    m.map_values(|j: Json| doc_of(j))
}

/// Whether a map and all values in it are in order.
pub open spec fn map_wf(m: SortedMap<Json>) -> bool {
    m.wf() && forall|i: int| 0 <= i < m.entries@.len() ==> json_wf((#[trigger] m.entries@[i]).1)
}

/// The document of an optional value.
pub open spec fn option_doc(j: Option<Json>) -> Option<Doc> {
    match j {
        Some(v) => Some(doc_of(v)),
        None => None,
    }
}

/// The document of an optional reference to a value.
pub open spec fn ref_doc(j: Option<&Json>) -> Option<Doc> {
    match j {
        Some(v) => Some(doc_of(*v)),
        None => None,
    }
}

/// An optional value is in order where there is one.
pub open spec fn option_wf(j: Option<Json>) -> bool {
    match j {
        Some(v) => json_wf(v),
        None => true,
    }
}

/// A list stands for the list of its items' documents.
pub proof fn lemma_array_doc(v: Vec<Json>)
    ensures
        doc_of(Json::Array(v)) == Tree::List(list_docs(v@)),
{
    assert(doc_of(Json::Array(v))->List_0 =~= list_docs(v@));
}

/// An object stands for the map of its values' documents.
pub proof fn lemma_object_doc(m: SortedMap<Json>)
    ensures
        doc_of(Json::Object(m)) == Tree::Object(map_docs(m@)),
{
    let d = doc_of(Json::Object(m))->Object_0;
    assert forall|k: Seq<char>| d.contains_key(k) implies d[k] == map_docs(m@)[k] by {
        sorted_map::lemma_map_of_key(m.entries@, k);
    }
    assert(d =~= map_docs(m@));
}

/// A value of a map in order is itself in order.
pub proof fn lemma_map_value_wf(m: SortedMap<Json>, k: Seq<char>)
    requires
        map_wf(m),
        m@.contains_key(k),
    ensures
        json_wf(m@[k]),
{
    sorted_map::lemma_map_of_key(m.entries@, k);
}

/// Putting a value in order into a map in order keeps it so.
pub proof fn lemma_map_insert_wf(before: SortedMap<Json>, after: SortedMap<Json>, k: Seq<char>, v: Json)
    requires
        map_wf(before),
        json_wf(v),
        after.wf(),
        after@ == before@.insert(k, v),
    ensures
        map_wf(after),
        map_docs(after@) == map_docs(before@).insert(k, doc_of(v)),
{
    assert forall|i: int| 0 <= i < after.entries@.len() implies json_wf(
        (#[trigger] after.entries@[i]).1,
    ) by {
        sorted_map::lemma_map_of_entry(after.entries@, i);
        let q = after.entries@[i].0@;
        if q != k {
            assert(before@.contains_key(q));
            lemma_map_value_wf(before, q);
        }
    }
    assert(map_docs(after@) =~= map_docs(before@).insert(k, doc_of(v)));
}

/// Taking a key out of a map in order keeps it so.
pub proof fn lemma_map_remove_wf(before: SortedMap<Json>, after: SortedMap<Json>, k: Seq<char>)
    requires
        map_wf(before),
        after.wf(),
        after@ == before@.remove(k),
    ensures
        map_wf(after),
        map_docs(after@) == map_docs(before@).remove(k),
{
    assert forall|i: int| 0 <= i < after.entries@.len() implies json_wf(
        (#[trigger] after.entries@[i]).1,
    ) by {
        sorted_map::lemma_map_of_entry(after.entries@, i);
        let q = after.entries@[i].0@;
        assert(before@.contains_key(q));
        lemma_map_value_wf(before, q);
    }
    assert(map_docs(after@) =~= map_docs(before@).remove(k));
}

/// Copies a list of values.
pub fn copy_list(v: &Vec<Json>) -> (r: Vec<Json>)
    requires
        forall|i: int| 0 <= i < v@.len() ==> json_wf(#[trigger] v@[i]),
    ensures
        list_docs(r@) == list_docs(v@),
        forall|i: int| 0 <= i < r@.len() ==> json_wf(#[trigger] r@[i]),
    decreases v,
{
    let mut r: Vec<Json> = Vec::new();
    for i in 0..v.len()
        invariant
            forall|j: int| 0 <= j < v@.len() ==> json_wf(#[trigger] v@[j]),
            r@.len() == i,
            forall|j: int| 0 <= j < i ==> doc_of(#[trigger] r@[j]) == doc_of(v@[j]),
            forall|j: int| 0 <= j < i ==> json_wf(#[trigger] r@[j]),
    {
        r.push(v[i].copy());
    }
    assert(list_docs(r@) =~= list_docs(v@));
    r
}

/// Copies a map of values.
pub fn copy_map(m: &SortedMap<Json>) -> (r: SortedMap<Json>)
    requires
        map_wf(*m),
    ensures
        map_wf(r),
        r.keys() == m.keys(),
        map_docs(r@) == map_docs(m@),
    decreases m,
{
    let mut entries: Vec<(String, Json)> = Vec::new();
    for i in 0..m.entries.len()
        invariant
            map_wf(*m),
            entries@.len() == i,
            forall|j: int| 0 <= j < i ==> (#[trigger] entries@[j]).0@ == m.entries@[j].0@,
            forall|j: int| 0 <= j < i ==> doc_of((#[trigger] entries@[j]).1) == doc_of(m.entries@[j].1),
            forall|j: int| 0 <= j < i ==> json_wf((#[trigger] entries@[j]).1),
    {
        let k = m.entries[i].0.clone();
        let v = m.entries[i].1.copy();
        entries.push((k, v));
    }
    let r = SortedMap { entries };
    proof {
        assert(r.keys() =~= m.keys());
        assert forall|k: Seq<char>| r@.contains_key(k) implies map_docs(r@)[k] == map_docs(m@)[k] by {
            sorted_map::lemma_map_of_key(r.entries@, k);
            let i = sorted_map::position(r.entries@, k);
            sorted_map::lemma_map_of_entry(m.entries@, i);
        }
        assert(map_docs(r@) =~= map_docs(m@));
    }
    r
}

/// Whether two lists hold the same documents.
fn same_list(a: &Vec<Json>, b: &Vec<Json>) -> (r: bool)
    requires
        forall|i: int| 0 <= i < a@.len() ==> json_wf(#[trigger] a@[i]),
        forall|i: int| 0 <= i < b@.len() ==> json_wf(#[trigger] b@[i]),
    ensures
        r == (list_docs(a@) == list_docs(b@)),
    decreases a,
{
    if a.len() != b.len() {
        assert(list_docs(a@).len() != list_docs(b@).len());
        return false;
    }
    for i in 0..a.len()
        invariant
            forall|j: int| 0 <= j < a@.len() ==> json_wf(#[trigger] a@[j]),
            forall|j: int| 0 <= j < b@.len() ==> json_wf(#[trigger] b@[j]),
            a@.len() == b@.len(),
            forall|j: int| 0 <= j < i ==> doc_of(#[trigger] a@[j]) == doc_of(b@[j]),
    {
        if !a[i].same(&b[i]) {
            assert(list_docs(a@)[i as int] != list_docs(b@)[i as int]);
            return false;
        }
    }
    assert(list_docs(a@) =~= list_docs(b@));
    true
}

/// Whether two maps have the same keys with the same documents.
pub fn same_map(a: &SortedMap<Json>, b: &SortedMap<Json>) -> (r: bool)
    requires
        map_wf(*a),
        map_wf(*b),
    ensures
        r == (map_docs(a@) == map_docs(b@)),
    decreases a,
{
    if a.entries.len() != b.entries.len() {
        proof {
            if map_docs(a@) == map_docs(b@) {
                assert(a@.dom() =~= map_docs(a@).dom());
                assert(b@.dom() =~= map_docs(b@).dom());
                lemma_same_keys(*a, *b);
            }
        }
        return false;
    }
    for i in 0..a.entries.len()
        invariant
            map_wf(*a),
            map_wf(*b),
            a.entries@.len() == b.entries@.len(),
            forall|j: int| 0 <= j < i ==> (#[trigger] a.entries@[j]).0@ == b.entries@[j].0@,
            forall|j: int|
                0 <= j < i ==> doc_of((#[trigger] a.entries@[j]).1) == doc_of(b.entries@[j].1),
    {
        if !text_eq(a.entries[i].0.as_str(), b.entries[i].0.as_str()) {
            proof {
                if map_docs(a@) == map_docs(b@) {
                    assert(a@.dom() =~= map_docs(a@).dom());
                    assert(b@.dom() =~= map_docs(b@).dom());
                    lemma_same_keys(*a, *b);
                    assert(a.keys()[i as int] == b.keys()[i as int]);
                }
            }
            return false;
        }
        if !a.entries[i].1.same(&b.entries[i].1) {
            proof {
                sorted_map::lemma_map_of_entry(a.entries@, i as int);
                sorted_map::lemma_map_of_entry(b.entries@, i as int);
                let k = a.entries@[i as int].0@;
                assert(map_docs(a@)[k] != map_docs(b@)[k]);
            }
            return false;
        }
    }
    proof {
        assert(a.keys() =~= b.keys());
        assert forall|k: Seq<char>| a@.contains_key(k) implies map_docs(a@)[k] == map_docs(b@)[k] by {
            sorted_map::lemma_map_of_key(a.entries@, k);
            let i = sorted_map::position(a.entries@, k);
            sorted_map::lemma_map_of_entry(b.entries@, i);
        }
        assert(map_docs(a@) =~= map_docs(b@));
    }
    true
}

/// Maps in order with the same keys list them alike.
pub proof fn lemma_same_keys<A, B>(a: SortedMap<A>, b: SortedMap<B>)
    requires
        a.wf(),
        b.wf(),
        a@.dom() == b@.dom(),
    ensures
        a.keys() == b.keys(),
        a.entries@.len() == b.entries@.len(),
{
    assert forall|k: Seq<char>| a.keys().contains(k) == b.keys().contains(k) by {
        assert(a@.contains_key(k) == a.keys().contains(k));
        assert(b@.contains_key(k) == b.keys().contains(k));
        assert(a@.dom().contains(k) == b@.dom().contains(k));
    }
    sorted_map::lemma_ascending_unique(a.keys(), b.keys());
    assert(a.keys().len() == a.entries@.len());
    assert(b.keys().len() == b.entries@.len());
}

impl Json {
    /// Copies a value.
    pub fn copy(&self) -> (r: Json)
        requires
            json_wf(*self),
        ensures
            r@ == self@,
            json_wf(r),
        decreases self,
    {
        match self {
            Json::Null => Json::Null,
            Json::Bool(b) => Json::Bool(*b),
            Json::Number(s) => Json::Number(s.clone()),
            Json::String(s) => Json::String(s.clone()),
            Json::Array(v) => {
                let c = copy_list(v);
                proof {
                    lemma_array_doc(*v);
                    lemma_array_doc(c);
                }
                Json::Array(c)
            },
            Json::Object(m) => {
                let c = copy_map(m);
                proof {
                    lemma_object_doc(*m);
                    lemma_object_doc(c);
                }
                Json::Object(c)
            },
        }
    }

    /// Whether two values are the same document, numbers compared as written.
    pub fn same(&self, other: &Json) -> (r: bool)
        requires
            json_wf(*self),
            json_wf(*other),
        ensures
            r == (self@ == other@),
        decreases self,
    {
        match (self, other) {
            (Json::Null, Json::Null) => true,
            (Json::Bool(a), Json::Bool(b)) => *a == *b,
            (Json::Number(a), Json::Number(b)) => text_eq(a.as_str(), b.as_str()),
            (Json::String(a), Json::String(b)) => text_eq(a.as_str(), b.as_str()),
            (Json::Array(a), Json::Array(b)) => {
                proof {
                    lemma_array_doc(*a);
                    lemma_array_doc(*b);
                }
                same_list(a, b)
            },
            (Json::Object(a), Json::Object(b)) => {
                proof {
                    lemma_object_doc(*a);
                    lemma_object_doc(*b);
                }
                same_map(a, b)
            },
            _ => false,
        }
    }
}

/// Copies the value that an optional reference leads to.
pub fn copy_ref(j: Option<&Json>) -> (r: Option<Json>)
    requires
        j matches Some(v) ==> json_wf(*v),
    ensures
        option_doc(r) == ref_doc(j),
        option_wf(r),
{
    match j {
        Some(v) => Some(v.copy()),
        None => None,
    }
}

/// Adds a member to an object.
pub fn with(m: SortedMap<Json>, k: &str, v: Json) -> (r: SortedMap<Json>)
    requires
        map_wf(m),
        json_wf(v),
    ensures
        map_wf(r),
        map_docs(r@) == map_docs(m@).insert(k@, v@),
{
    let mut r = m;
    r.insert(k.to_owned(), v);
    proof {
        lemma_map_insert_wf(m, r, k@, v);
    }
    r
}

/// An object without members.
pub fn no_members() -> (r: SortedMap<Json>)
    ensures
        map_wf(r),
        map_docs(r@) == Map::<Seq<char>, Doc>::empty(),
{
    let r: SortedMap<Json> = SortedMap::new();
    assert(map_docs(r@) =~= Map::<Seq<char>, Doc>::empty());
    r
}

/// The object with the given members.
pub fn object(m: SortedMap<Json>) -> (r: Json)
    requires
        map_wf(m),
    ensures
        json_wf(r),
        r@ == Tree::<Seq<char>>::Object(map_docs(m@)),
{
    proof {
        lemma_object_doc(m);
    }
    Json::Object(m)
}

/// The list with the given items.
pub fn list(v: Vec<Json>) -> (r: Json)
    requires
        forall|i: int| 0 <= i < v@.len() ==> json_wf(#[trigger] v@[i]),
    ensures
        json_wf(r),
        r@ == Tree::List(list_docs(v@)),
{
    proof {
        lemma_array_doc(v);
    }
    Json::Array(v)
}

/// What a value stands for: itself where it is no list and no object, the
/// documents of all items in their order, and the documents of all members under
/// their keys.
pub proof fn law_documents(
    b: bool,
    s: String,
    v: Vec<Json>,
    m: SortedMap<Json>,
    i: int,
    k: Seq<char>,
)
    requires
        m.wf(),
    ensures
        doc_of(Json::Null) == Tree::<Seq<char>>::Null,
        doc_of(Json::Bool(b)) == Tree::<Seq<char>>::Bool(b),
        doc_of(Json::Number(s)) == Tree::Num(s@),
        doc_of(Json::String(s)) == Tree::<Seq<char>>::Text(s@),
        doc_of(Json::Array(v)) matches Tree::List(l) && l.len() == v@.len() && (0 <= i < v@.len()
            ==> l[i] == doc_of(v@[i])),
        doc_of(Json::Object(m)) matches Tree::Object(o) && o.contains_key(k) == m@.contains_key(k) && (
        m@.contains_key(k) ==> o[k] == doc_of(m@[k])),
        list_docs(v@).len() == v@.len() && (0 <= i < v@.len() ==> list_docs(v@)[i] == doc_of(v@[i])),
        map_docs(m@).contains_key(k) == m@.contains_key(k),
        m@.contains_key(k) ==> map_docs(m@)[k] == doc_of(m@[k]),
        ref_doc(None) is None && option_doc(None) is None,
{
    lemma_object_doc(m);
    lemma_array_doc(v);
}

/// What an optional value stands for.
pub proof fn law_optional_documents(j: Json)
    ensures
        option_doc(Some(j)) == Some(doc_of(j)),
        ref_doc(Some(&j)) == Some(doc_of(j)),
{
}

} // verus!
