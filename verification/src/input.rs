//! Reading JSON text into values.
use vstd::prelude::*;

use crate::json;
use crate::json::{list, object, Json};
use crate::sorted_map;
use crate::sorted_map::{reversed, SortedMap};
use crate::tree::{Doc, Tree};

verus! {

/// Declares `serde_json::Value`, a parsed JSON value.
#[verifier::external_type_specification]
#[verifier::external_body]
pub struct ExValue(serde_json::Value);

/// Declares `serde_json::Error`, what is wrong with a text.
#[verifier::external_type_specification]
#[verifier::external_body]
pub struct ExError(serde_json::Error);

/// The document that a `serde_json::Value` holds.
pub uninterp spec fn value_doc(v: serde_json::Value) -> Doc;

/// The document that `serde_json::from_slice` reads from bytes, unless it
/// refuses them.
pub uninterp spec fn parsed(b: Seq<u8>) -> Option<Doc>;

/// One level of a JSON value, with numbers as they were written.
pub enum Shape {
    Null,
    Bool(bool),
    Number(String),
    Text(String),
    List(Vec<serde_json::Value>),
    Object(Vec<(String, serde_json::Value)>),
}

/// The documents of parsed values.
pub open spec fn value_docs(v: Seq<serde_json::Value>) -> Seq<Doc> {
    Seq::new(v.len(), |i: int| value_doc(v[i]))
}

/// The documents of parsed values, by their keys.
pub open spec fn member_docs(m: Map<Seq<char>, serde_json::Value>) -> Map<Seq<char>, Doc> {
    m.map_values(|v: serde_json::Value| value_doc(v))
}

/// Calls `serde_json::from_slice`. Claims that whether it succeeds, and the
/// document it then gives, depend on the bytes alone; the grammar is not stated.
#[verifier::external_body]
fn parse_value(bytes: &[u8]) -> (r: Result<serde_json::Value, serde_json::Error>)
    ensures
        match r {
            Ok(v) => parsed(bytes@) == Some(value_doc(v)),
            Err(_) => parsed(bytes@) is None,
        },
{
    serde_json::from_slice(bytes)
}

/// Tells the variants of `serde_json::Value` apart and takes their contents;
/// a number gives its text through `Number::as_str`, an object its members
/// through `Map::into_iter`. Claims that the contents make up the document, and
/// that the members come in ascending order of their keys.
#[verifier::external_body]
fn open_value(v: serde_json::Value) -> (r: Shape)
    ensures
        match r {
            Shape::Null => value_doc(v) == Tree::<Seq<char>>::Null,
            Shape::Bool(b) => value_doc(v) == Tree::<Seq<char>>::Bool(b),
            Shape::Number(s) => value_doc(v) == Tree::Num(s@),
            Shape::Text(s) => value_doc(v) == Tree::<Seq<char>>::Text(s@),
            Shape::List(items) => value_doc(v) == Tree::List(value_docs(items@)),
            Shape::Object(members) => value_doc(v) == Tree::<Seq<char>>::Object(
                member_docs(sorted_map::map_of(members@)),
            ) && sorted_map::ascending(sorted_map::keys_of(members@)),
        },
{
    match v {
        serde_json::Value::Null => Shape::Null,
        serde_json::Value::Bool(b) => Shape::Bool(b),
        serde_json::Value::Number(n) => Shape::Number(n.as_str().to_owned()),
        serde_json::Value::String(s) => Shape::Text(s),
        serde_json::Value::Array(items) => Shape::List(items),
        serde_json::Value::Object(members) => Shape::Object(members.into_iter().collect()),
    }
}

/// Turns a parsed value into one of the library.
pub fn import(v: serde_json::Value) -> (r: Json)
    ensures
        r@ == value_doc(v),
        json::json_wf(r),
    decreases value_doc(v),
{
    match open_value(v) {
        Shape::Null => Json::Null,
        Shape::Bool(b) => Json::Bool(b),
        Shape::Number(s) => Json::Number(s),
        Shape::Text(s) => Json::String(s),
        Shape::List(items) => {
            let ghost all = items@;
            let mut rest = items;
            let mut back: Vec<Json> = Vec::new();
            loop
                invariant
                    value_doc(v) == Tree::List(value_docs(all)),
                    rest@.len() <= all.len(),
                    rest@ == all.take(rest@.len() as int),
                    back@.len() == all.len() - rest@.len(),
                    forall|i: int|
                        0 <= i < back@.len() ==> (#[trigger] back@[i])@ == value_doc(
                            all[all.len() - 1 - i],
                        ) && json::json_wf(back@[i]),
                ensures
                    rest@.len() == 0,
                decreases rest@.len(),
            {
                let ghost left = rest@;
                match rest.pop() {
                    None => {
                        break;
                    },
                    Some(item) => {
                        proof {
                            let k = left.len() - 1;
                            assert(left[k] == all[k]);
                            assert(rest@ =~= all.take(rest@.len() as int));
                            let d = value_doc(v);
                            assert(decreases_to!(d => d->List_0[k]));
                        }
                        back.push(import(item));
                    },
                }
            }
            let ghost bs = back@;
            let out = reversed(back);
            proof {
                assert forall|i: int| 0 <= i < out@.len() implies (#[trigger] out@[i])@
                    == value_doc(all[i]) && json::json_wf(out@[i]) by {
                    assert(out@[i] == bs[bs.len() - 1 - i]);
                }
                assert(json::list_docs(out@) =~= value_docs(all));
            }
            list(out)
        },
        Shape::Object(members) => {
            let ghost all = members@;
            let mut rest = members;
            let mut back: Vec<(String, Json)> = Vec::new();
            loop
                invariant
                    sorted_map::ascending(sorted_map::keys_of(all)),
                    value_doc(v) == Tree::<Seq<char>>::Object(
                        member_docs(sorted_map::map_of(all)),
                    ),
                    rest@.len() <= all.len(),
                    rest@ == all.take(rest@.len() as int),
                    back@.len() == all.len() - rest@.len(),
                    forall|i: int|
                        0 <= i < back@.len() ==> (#[trigger] back@[i]).0 == all[all.len() - 1 - i].0
                            && back@[i].1@ == value_doc(all[all.len() - 1 - i].1) && json::json_wf(
                            back@[i].1,
                        ),
                ensures
                    rest@.len() == 0,
                decreases rest@.len(),
            {
                let ghost left = rest@;
                match rest.pop() {
                    None => {
                        break;
                    },
                    Some((key, item)) => {
                        proof {
                            let k = left.len() - 1;
                            assert(left[k] == all[k]);
                            assert(rest@ =~= all.take(rest@.len() as int));
                            sorted_map::lemma_map_of_entry(all, k);
                            let d = value_doc(v);
                            assert(d->Object_0.contains_key(key@));
                            assert(d->Object_0[key@] == value_doc(item));
                            assert(decreases_to!(d => d->Object_0[key@]));
                        }
                        back.push((key, import(item)));
                    },
                }
            }
            let ghost bs = back@;
            let m = SortedMap { entries: reversed(back) };
            proof {
                assert forall|i: int| 0 <= i < m.entries@.len() implies (#[trigger] m.entries@[i]).0
                    == all[i].0 && m.entries@[i].1@ == value_doc(all[i].1) && json::json_wf(
                    m.entries@[i].1,
                ) by {
                    assert(m.entries@[i] == bs[bs.len() - 1 - i]);
                }
                assert(m.keys() =~= sorted_map::keys_of(all));
                assert forall|k: Seq<char>| m@.contains_key(k) implies json::map_docs(m@)[k]
                    == member_docs(sorted_map::map_of(all))[k] by {
                    sorted_map::lemma_map_of_key(m.entries@, k);
                    let i = sorted_map::position(m.entries@, k);
                    sorted_map::lemma_map_of_entry(all, i);
                }
                assert(json::map_docs(m@) =~= member_docs(sorted_map::map_of(all)));
            }
            object(m)
        },
    }
}

/// Reads JSON text; `None` where it is malformed.
pub fn read_json(bytes: &[u8]) -> (r: Option<Json>)
    ensures
        match r {
            Some(j) => parsed(bytes@) == Some(j@) && json::json_wf(j),
            None => parsed(bytes@) is None,
        },
{
    match parse_value(bytes) {
        Ok(v) => Some(import(v)),
        Err(_) => None,
    }
}

/// Parsed items and members stand for their documents, one by one.
pub proof fn law_parsed_documents(
    v: Seq<serde_json::Value>,
    m: Map<Seq<char>, serde_json::Value>,
    i: int,
    k: Seq<char>,
)
    ensures
        value_docs(v).len() == v.len(),
        0 <= i < v.len() ==> value_docs(v)[i] == value_doc(v[i]),
        member_docs(m).contains_key(k) == m.contains_key(k),
        m.contains_key(k) ==> member_docs(m)[k] == value_doc(m[k]),
{
}

} // verus!
