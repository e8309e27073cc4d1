//! Comparing JSON values by what their numbers stand for, and reading and
//! writing them by path.
use vstd::prelude::*;

use crate::json;
use crate::json::Json;
use crate::number;
use crate::number::{number_eq, NumKey};
use crate::pointer;
use crate::sorted_map;
use crate::sorted_map::SortedMap;
use crate::text::text_eq;
use crate::tree;
use crate::tree::{Doc, Path, Tree};

verus! {

/// Replaces the text of a number by what it stands for.
pub open spec fn by_value() -> spec_fn(Seq<char>) -> NumKey {
    |t: Seq<char>| number::num_key(t)
}

/// A document with its numbers replaced by what they stand for.
pub open spec fn normal(d: Doc) -> Tree<NumKey> {
    tree::relabel(d, by_value())
}

/// An optional document with its numbers replaced by what they stand for.
pub open spec fn normal_option(d: Option<Doc>) -> Option<Tree<NumKey>> {
    tree::relabel_option(d, by_value())
}

/// The value of a key, where there is one.
pub open spec fn entry(m: Map<Seq<char>, Doc>, k: Seq<char>) -> Option<Doc> {
    if m.contains_key(k) {
        Some(m[k])
    } else {
        None
    }
}

/// The text at a key, where there is one.
pub open spec fn text_entry(m: Map<Seq<char>, Doc>, k: Seq<char>) -> Option<Seq<char>> {
    match entry(m, k) {
        Some(Tree::Text(s)) => Some(s),
        _ => None,
    }
}

proof fn lemma_normal_list(a: Vec<Json>, b: Vec<Json>)
    ensures
        normal(json::doc_of(Json::Array(a))) == normal(json::doc_of(Json::Array(b))) <==> (
        a@.len() == b@.len() && forall|i: int|
            0 <= i < a@.len() ==> normal(json::doc_of(#[trigger] a@[i])) == normal(
                json::doc_of(b@[i]),
            )),
{
    json::lemma_array_doc(a);
    json::lemma_array_doc(b);
    let x = normal(json::doc_of(Json::Array(a)))->List_0;
    let y = normal(json::doc_of(Json::Array(b)))->List_0;
    assert(x.len() == a@.len() && y.len() == b@.len());
    assert forall|i: int| 0 <= i < a@.len() implies x[i] == normal(
        json::doc_of(#[trigger] a@[i]),
    ) by {}
    assert forall|i: int| 0 <= i < b@.len() implies y[i] == normal(
        json::doc_of(#[trigger] b@[i]),
    ) by {}
    if x == y {
        assert forall|i: int| 0 <= i < a@.len() implies normal(json::doc_of(#[trigger] a@[i]))
            == normal(json::doc_of(b@[i])) by {
            assert(x[i] == y[i]);
        }
    } else if a@.len() == b@.len() && forall|i: int|
        0 <= i < a@.len() ==> normal(json::doc_of(#[trigger] a@[i])) == normal(
            json::doc_of(b@[i]),
        ) {
        assert(x =~= y);
    }
}

proof fn lemma_normal_map(a: SortedMap<Json>, b: SortedMap<Json>)
    requires
        json::map_wf(a),
        json::map_wf(b),
    ensures
        normal(json::doc_of(Json::Object(a))) == normal(json::doc_of(Json::Object(b))) <==> (
        a.entries@.len() == b.entries@.len() && forall|i: int|
            0 <= i < a.entries@.len() ==> (#[trigger] a.entries@[i]).0@ == b.entries@[i].0@
                && normal(json::doc_of(a.entries@[i].1)) == normal(
                json::doc_of(b.entries@[i].1),
            )),
{
    json::lemma_object_doc(a);
    json::lemma_object_doc(b);
    let x = normal(json::doc_of(Json::Object(a)))->Object_0;
    let y = normal(json::doc_of(Json::Object(b)))->Object_0;
    assert(x.dom() =~= a@.dom());
    assert(y.dom() =~= b@.dom());
    assert forall|i: int| 0 <= i < a.entries@.len() implies {
        &&& x.contains_key((#[trigger] a.entries@[i]).0@)
        &&& x[a.entries@[i].0@] == normal(json::doc_of(a.entries@[i].1))
    } by {
        sorted_map::lemma_map_of_entry(a.entries@, i);
    }
    assert forall|i: int| 0 <= i < b.entries@.len() implies {
        &&& y.contains_key((#[trigger] b.entries@[i]).0@)
        &&& y[b.entries@[i].0@] == normal(json::doc_of(b.entries@[i].1))
    } by {
        sorted_map::lemma_map_of_entry(b.entries@, i);
    }
    if x == y {
        json::lemma_same_keys(a, b);
        assert forall|i: int| 0 <= i < a.entries@.len() implies (#[trigger] a.entries@[i]).0@
            == b.entries@[i].0@ && normal(json::doc_of(a.entries@[i].1)) == normal(
            json::doc_of(b.entries@[i].1),
        ) by {
            assert(a.keys()[i] == b.keys()[i]);
        }
    } else if a.entries@.len() == b.entries@.len() && forall|i: int|
        0 <= i < a.entries@.len() ==> (#[trigger] a.entries@[i]).0@ == b.entries@[i].0@ && normal(
            json::doc_of(a.entries@[i].1),
        ) == normal(json::doc_of(b.entries@[i].1)) {
        assert(a.keys() =~= b.keys());
        assert forall|k: Seq<char>| x.contains_key(k) implies y.contains_key(k) && x[k] == y[k] by {
            sorted_map::lemma_map_of_key(a.entries@, k);
            let i = sorted_map::position(a.entries@, k);
            assert(a.entries@[i].0@ == b.entries@[i].0@);
        }
        assert forall|k: Seq<char>| y.contains_key(k) implies x.contains_key(k) by {
            sorted_map::lemma_map_of_key(b.entries@, k);
            let i = sorted_map::position(b.entries@, k);
            assert(a.entries@[i].0@ == b.entries@[i].0@);
        }
        assert(x =~= y);
    }
}

/// Whether two values are equal whatever the order of object keys and however
/// their numbers are written.
pub fn json_eq(a: &Json, b: &Json) -> (r: bool)
    requires
        json::json_wf(*a),
        json::json_wf(*b),
    ensures
        r == (normal(a@) == normal(b@)),
    decreases a,
{
    match (a, b) {
        (Json::Null, Json::Null) => true,
        (Json::Bool(x), Json::Bool(y)) => *x == *y,
        (Json::Number(x), Json::Number(y)) => number_eq(x.as_str(), y.as_str()),
        (Json::String(x), Json::String(y)) => text_eq(x.as_str(), y.as_str()),
        (Json::Array(x), Json::Array(y)) => {
            proof {
                lemma_normal_list(*x, *y);
            }
            if x.len() != y.len() {
                return false;
            }
            for i in 0..x.len()
                invariant
                    x@.len() == y@.len(),
                    *a == Json::Array(*x),
                    *b == Json::Array(*y),
                    json::json_wf(*a),
                    json::json_wf(*b),
                    forall|j: int|
                        0 <= j < i ==> normal(json::doc_of(#[trigger] x@[j])) == normal(
                            json::doc_of(y@[j]),
                        ),
            {
                assert(json::json_wf(x@[i as int]) && json::json_wf(y@[i as int]));
                if !json_eq(&x[i], &y[i]) {
                    proof {
                        lemma_normal_list(*x, *y);
                        assert(normal(json::doc_of(x@[i as int])) != normal(
                            json::doc_of(y@[i as int]),
                        ));
                    }
                    return false;
                }
            }
            true
        },
        (Json::Object(x), Json::Object(y)) => {
            proof {
                lemma_normal_map(*x, *y);
            }
            if x.entries.len() != y.entries.len() {
                return false;
            }
            for i in 0..x.entries.len()
                invariant
                    x.entries@.len() == y.entries@.len(),
                    *a == Json::Object(*x),
                    *b == Json::Object(*y),
                    json::json_wf(*a),
                    json::json_wf(*b),
                    forall|j: int|
                        0 <= j < i ==> (#[trigger] x.entries@[j]).0@ == y.entries@[j].0@ && normal(
                            json::doc_of(x.entries@[j].1),
                        ) == normal(json::doc_of(y.entries@[j].1)),
            {
                assert(json::json_wf(x.entries@[i as int].1));
                assert(json::json_wf(y.entries@[i as int].1));
                if !text_eq(x.entries[i].0.as_str(), y.entries[i].0.as_str()) || !json_eq(
                    &x.entries[i].1,
                    &y.entries[i].1,
                ) {
                    proof {
                        lemma_normal_map(*x, *y);
                        assert(!(x.entries@[i as int].0@ == y.entries@[i as int].0@ && normal(
                            json::doc_of(x.entries@[i as int].1),
                        ) == normal(json::doc_of(y.entries@[i as int].1))));
                    }
                    return false;
                }
            }
            true
        },
        _ => false,
    }
}

/// The members of an object.
pub fn as_object(j: &Json) -> (r: Option<&SortedMap<Json>>)
    requires
        json::json_wf(*j),
    ensures
        match r {
            Some(m) => j@ == Tree::<Seq<char>>::Object(json::map_docs(m@)) && json::map_wf(*m) && *j
                == Json::Object(*m),
            None => !(j@ is Object),
        },
{
    match j {
        Json::Object(m) => {
            proof {
                json::lemma_object_doc(*m);
            }
            Some(m)
        },
        _ => None,
    }
}

/// The items of a list.
pub fn as_array(j: &Json) -> (r: Option<&Vec<Json>>)
    requires
        json::json_wf(*j),
    ensures
        match r {
            Some(v) => j@ == Tree::List(json::list_docs(v@)) && forall|i: int|
                0 <= i < v@.len() ==> json::json_wf(#[trigger] v@[i]),
            None => !(j@ is List),
        },
{
    match j {
        Json::Array(v) => {
            proof {
                json::lemma_array_doc(*v);
            }
            Some(v)
        },
        _ => None,
    }
}

/// The value at a key.
pub fn get<'a>(m: &'a SortedMap<Json>, k: &str) -> (r: Option<&'a Json>)
    requires
        json::map_wf(*m),
    ensures
        match r {
            Some(j) => entry(json::map_docs(m@), k@) == Some(j@) && json::json_wf(*j) && m@.contains_key(k@) && *j
                == m@[k@],
            None => entry(json::map_docs(m@), k@) is None,
        },
{
    let r = m.get(k);
    proof {
        if r is Some {
            json::lemma_map_value_wf(*m, k@);
        }
    }
    r
}

/// The text at a key.
pub fn get_text<'a>(m: &'a SortedMap<Json>, k: &str) -> (r: Option<&'a String>)
    requires
        json::map_wf(*m),
    ensures
        match r {
            Some(s) => text_entry(json::map_docs(m@), k@) == Some(s@),
            None => text_entry(json::map_docs(m@), k@) is None,
        },
{
    match get(m, k) {
        Some(Json::String(s)) => Some(s),
        _ => None,
    }
}

/// What stands at a path.
pub fn get_path<'a>(root: &'a Json, segments: &[String]) -> (r: Option<&'a Json>)
    requires
        json::json_wf(*root),
    ensures
        match r {
            Some(j) => tree::lookup(root@, pointer::texts(segments@)) == Some(j@) && json::json_wf(
                *j,
            ),
            None => tree::lookup(root@, pointer::texts(segments@)) is None,
        },
{
    let mut current: &'a Json = root;
    let ghost p = pointer::texts(segments@);
    assert(p.skip(0) =~= p);
    for i in 0..segments.len()
        invariant
            p == pointer::texts(segments@),
            json::json_wf(*current),
            tree::lookup(root@, p) == tree::lookup(current@, p.skip(i as int)),
    {
        proof {
            assert(p.skip(i as int)[0] == segments@[i as int]@);
            assert(p.skip(i as int).drop_first() =~= p.skip(i + 1));
        }
        match as_object(current) {
            None => {
                return None;
            },
            Some(m) => match get(m, segments[i].as_str()) {
                None => {
                    return None;
                },
                Some(next) => {
                    current = next;
                },
            },
        }
    }
    assert(p.skip(segments@.len() as int).len() == 0);
    Some(current)
}

/// Whether every step of a path but the last leads to an existing object.
pub fn parent_is_object(root: &Json, segments: &[String]) -> (r: bool)
    requires
        json::json_wf(*root),
        segments@.len() > 0,
    ensures
        r == tree::has_parent(root@, pointer::texts(segments@)),
{
    let mut current: &Json = root;
    let ghost p = pointer::texts(segments@);
    assert(p.skip(0) =~= p);
    for i in 0..segments.len() - 1
        invariant
            p == pointer::texts(segments@),
            segments@.len() > 0,
            json::json_wf(*current),
            tree::has_parent(root@, p) == tree::has_parent(current@, p.skip(i as int)),
    {
        proof {
            assert(p.skip(i as int)[0] == segments@[i as int]@);
            assert(p.skip(i as int).drop_first() =~= p.skip(i + 1));
        }
        match as_object(current) {
            None => {
                return false;
            },
            Some(m) => match get(m, segments[i].as_str()) {
                Some(next) => {
                    if as_object(next).is_none() {
                        return false;
                    }
                    current = next;
                },
                None => {
                    return false;
                },
            },
        }
    }
    true
}

/// A value can be assigned exactly where the path has a parent.
pub proof fn lemma_assign_where_parent<N>(t: Tree<N>, p: Path, x: Tree<N>)
    ensures
        tree::assign(t, p, x) is Some <==> tree::has_parent(t, p),
    decreases p.len(),
{
    if let Tree::Object(m) = t {
        if p.len() > 1 && m.contains_key(p[0]) {
            lemma_assign_where_parent(m[p[0]], p.drop_first(), x);
        }
    }
}

/// Replacing one entry's value is inserting it at its key.
pub proof fn lemma_entry_replaced(
    before: SortedMap<Json>,
    after: SortedMap<Json>,
    i: int,
)
    requires
        json::map_wf(before),
        0 <= i < before.entries@.len(),
        after.entries@.len() == before.entries@.len(),
        after.entries@[i].0 == before.entries@[i].0,
        json::json_wf(after.entries@[i].1),
        forall|j: int|
            0 <= j < before.entries@.len() && j != i ==> after.entries@[j] == before.entries@[j],
    ensures
        json::map_wf(after),
        json::map_docs(after@) == json::map_docs(before@).insert(
            before.entries@[i].0@,
            json::doc_of(after.entries@[i].1),
        ),
{
    let k = before.entries@[i].0@;
    assert(after.keys() =~= before.keys());
    sorted_map::lemma_map_of_entry(before.entries@, i);
    sorted_map::lemma_map_of_entry(after.entries@, i);
    assert forall|q: Seq<char>| after@.contains_key(q) implies after@[q] == before@.insert(
        k,
        after.entries@[i].1,
    )[q] by {
        sorted_map::lemma_map_of_key(after.entries@, q);
        let j = sorted_map::position(after.entries@, q);
        sorted_map::lemma_map_of_entry(before.entries@, j);
    }
    assert(after@ =~= before@.insert(k, after.entries@[i].1));
    json::lemma_map_insert_wf(before, after, k, after.entries@[i].1);
}

fn set_from(root: &mut Json, segments: &[String], i: usize, value: Json)
    requires
        json::json_wf(*old(root)),
        json::json_wf(value),
        i < segments@.len(),
        tree::has_parent(old(root)@, pointer::texts(segments@).skip(i as int)),
    ensures
        json::json_wf(*final(root)),
        tree::assign(old(root)@, pointer::texts(segments@).skip(i as int), value@) == Some(
            final(root)@,
        ),
    decreases segments@.len() - i,
{
    let ghost p = pointer::texts(segments@).skip(i as int);
    proof {
        assert(p[0] == segments@[i as int]@);
        assert(p.drop_first() =~= pointer::texts(segments@).skip(i + 1));
    }
    match root {
        Json::Object(m) => {
            let ghost before = *m;
            proof {
                json::lemma_object_doc(before);
            }
            if i == segments.len() - 1 {
                m.insert(segments[i].clone(), value);
                proof {
                    json::lemma_map_insert_wf(before, *m, p[0], value);
                    json::lemma_object_doc(*m);
                }
            } else {
                let (found, at) = m.search(segments[i].as_str());
                assert(before@.contains_key(p[0]));
                proof {
                    sorted_map::lemma_map_of_entry(before.entries@, at as int);
                }
                let slot = &mut m.entries[at];
                set_from(&mut slot.1, segments, i + 1, value);
                proof {
                    lemma_entry_replaced(before, *m, at as int);
                    json::lemma_object_doc(*m);
                }
            }
        },
        _ => {},
    }
}

/// Puts a value at a path whose parent exists.
pub fn set_path(root: &mut Json, segments: &[String], value: Json)
    requires
        json::json_wf(*old(root)),
        json::json_wf(value),
        segments@.len() > 0,
        tree::has_parent(old(root)@, pointer::texts(segments@)),
    ensures
        json::json_wf(*final(root)),
        tree::assign(old(root)@, pointer::texts(segments@), value@) == Some(final(root)@),
{
    assert(pointer::texts(segments@).skip(0) =~= pointer::texts(segments@));
    set_from(root, segments, 0, value);
}

fn remove_from(root: &mut Json, segments: &[String], i: usize)
    requires
        json::json_wf(*old(root)),
        i < segments@.len(),
    ensures
        json::json_wf(*final(root)),
        final(root)@ == tree::erase(old(root)@, pointer::texts(segments@).skip(i as int)),
    decreases segments@.len() - i,
{
    let ghost p = pointer::texts(segments@).skip(i as int);
    proof {
        assert(p[0] == segments@[i as int]@);
        assert(p.drop_first() =~= pointer::texts(segments@).skip(i + 1));
    }
    match root {
        Json::Object(m) => {
            let ghost before = *m;
            proof {
                json::lemma_object_doc(before);
            }
            if i == segments.len() - 1 {
                m.remove(segments[i].as_str());
                proof {
                    json::lemma_map_remove_wf(before, *m, p[0]);
                    json::lemma_object_doc(*m);
                }
            } else {
                let (found, at) = m.search(segments[i].as_str());
                if found {
                    proof {
                        sorted_map::lemma_map_of_entry(before.entries@, at as int);
                    }
                    if as_object(&m.entries[at].1).is_some() {
                        let slot = &mut m.entries[at];
                        remove_from(&mut slot.1, segments, i + 1);
                        proof {
                            lemma_entry_replaced(before, *m, at as int);
                            json::lemma_object_doc(*m);
                        }
                    }
                }
            }
        },
        _ => {},
    }
}

/// Takes away what stands at a path, if anything does.
pub fn remove_path(root: &mut Json, segments: &[String])
    requires
        json::json_wf(*old(root)),
        segments@.len() > 0,
    ensures
        json::json_wf(*final(root)),
        final(root)@ == tree::erase(old(root)@, pointer::texts(segments@)),
{
    assert(pointer::texts(segments@).skip(0) =~= pointer::texts(segments@));
    remove_from(root, segments, 0);
}

/// A member of an object is what stands at its key, and a text only where a text
/// stands there.
pub proof fn law_members(m: Map<Seq<char>, Doc>, k: Seq<char>, d: Doc, s: Seq<char>)
    ensures
        entry(m, k) == Some(d) <==> m.contains_key(k) && m[k] == d,
        entry(m, k) is None <==> !m.contains_key(k),
        text_entry(m, k) == Some(s) <==> m.contains_key(k) && m[k] == Tree::<Seq<char>>::Text(s),
        text_entry(m, k) is None <==> !(m.contains_key(k) && m[k] is Text),
        normal_option(Some(d)) == Some(normal(d)),
        normal_option(None) is None,
{
}

/// Two documents are equal by value exactly if they have the same shape: lists
/// item by item, objects member by member whatever the order, numbers by what
/// they are and not by how they are written, and all else as it is.
pub proof fn law_equal_by_value(a: Doc, b: Doc)
    ensures
        normal(a) == normal(b) <==> match (a, b) {
            (Tree::Null, Tree::Null) => true,
            (Tree::Bool(x), Tree::Bool(y)) => x == y,
            (Tree::Num(x), Tree::Num(y)) => number::num_key(x) == number::num_key(y),
            (Tree::Text(x), Tree::Text(y)) => x == y,
            (Tree::List(x), Tree::List(y)) => x.len() == y.len() && forall|i: int|
                0 <= i < x.len() ==> normal(#[trigger] x[i]) == normal(y[i]),
            (Tree::Object(x), Tree::Object(y)) => forall|k: Seq<char>|
                #![trigger x.contains_key(k)]
                #![trigger y.contains_key(k)]
                x.contains_key(k) == y.contains_key(k) && (x.contains_key(k) ==> normal(x[k])
                    == normal(y[k])),
            _ => false,
        },
{
    let f = by_value();
    match (a, b) {
        (Tree::List(x), Tree::List(y)) => {
            let s = normal(a)->List_0;
            let t = normal(b)->List_0;
            if normal(a) == normal(b) {
                assert(s.len() == t.len());
                assert forall|i: int| 0 <= i < x.len() implies normal(#[trigger] x[i]) == normal(
                    y[i],
                ) by {
                    assert(s[i] == t[i]);
                }
            }
            if x.len() == y.len() && forall|i: int|
                0 <= i < x.len() ==> normal(#[trigger] x[i]) == normal(y[i]) {
                assert forall|i: int| 0 <= i < s.len() implies s[i] == t[i] by {
                    assert(normal(x[i]) == normal(y[i]));
                }
                assert(s =~= t);
            }
        },
        (Tree::Object(x), Tree::Object(y)) => {
            let s = normal(a)->Object_0;
            let t = normal(b)->Object_0;
            if normal(a) == normal(b) {
                assert forall|k: Seq<char>| x.contains_key(k) == y.contains_key(k) && (
                x.contains_key(k) ==> normal(x[k]) == normal(y[k])) by {
                    assert(s.contains_key(k) == t.contains_key(k));
                    assert(s.contains_key(k) == x.contains_key(k));
                    assert(t.contains_key(k) == y.contains_key(k));
                    if x.contains_key(k) {
                        assert(s[k] == t[k]);
                    }
                }
            }
            if forall|k: Seq<char>|
                #![trigger x.contains_key(k)]
                #![trigger y.contains_key(k)]
                x.contains_key(k) == y.contains_key(k) && (x.contains_key(k) ==> normal(x[k])
                    == normal(y[k])) {
                assert forall|k: Seq<char>| s.contains_key(k) == t.contains_key(k) && (
                s.contains_key(k) ==> s[k] == t[k]) by {
                    assert(s.contains_key(k) == x.contains_key(k));
                    assert(t.contains_key(k) == y.contains_key(k));
                }
                assert(s =~= t);
            }
        },
        _ => {},
    }
}

} // verus!
