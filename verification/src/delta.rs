//! The difference between two sets of rows.
use vstd::prelude::*;

use crate::change;
use crate::change::{row_change, update_change, ChangeDoc, Field, FieldDoc};
use crate::fault;
use crate::fault::{child_path, ApiError, Fault};
use crate::json;
use crate::json::{copy_ref, list, no_members, object, with, Json};
use crate::pointer;
use crate::pointer::escape_segment;
use crate::rows;
use crate::rows::{parse_rows, request_object, Rows};
use crate::sorted_map;
use crate::sorted_map::SortedMap;
use crate::text;
use crate::text::{rank, Rank};
use crate::tree;
use crate::tree::{Doc, Path, Tree};
use crate::value;
use crate::value::{get, json_eq};

verus! {

/// Whether two documents part at a path, numbers compared by what they stand for.
pub open spec fn parts(s: Doc, t: Doc, p: Path) -> bool {
    tree::part_at(value::normal(s), value::normal(t), p)
}

/// What two documents hold at a path.
pub open spec fn field_at(s: Doc, t: Doc, p: Path) -> FieldDoc {
    FieldDoc { path: pointer::pointer_text(p), old: tree::lookup(s, p), new: tree::lookup(t, p) }
}

/// Whether a field change tells what two documents hold where they part.
pub open spec fn is_parting(f: FieldDoc, s: Doc, t: Doc) -> bool {
    exists|p: Path| #[trigger] parts(s, t, p) && f == field_at(s, t, p)
}

/// Whether a list tells, in ascending order of the pointers, what two documents
/// hold at each path at which they part, and nothing else.
pub open spec fn is_delta(fields: Seq<FieldDoc>, s: Doc, t: Doc) -> bool {
    &&& sorted_map::ascending(change::paths_of(fields))
    &&& forall|i: int| 0 <= i < fields.len() ==> is_parting(#[trigger] fields[i], s, t)
    &&& forall|p: Path| #[trigger] parts(s, t, p) ==> fields.contains(field_at(s, t, p))
}

/// Whether a row is not the same before and after.
pub open spec fn differs(before: Rows, after: Rows, id: Seq<char>) -> bool {
    ||| before.contains_key(id) != after.contains_key(id)
    ||| before.contains_key(id) && after.contains_key(id) && value::normal(before[id])
        != value::normal(after[id])
}

/// Whether a change is the one that its row needs.
pub open spec fn fits(c: ChangeDoc, before: Rows, after: Rows) -> bool {
    match c {
        ChangeDoc::Add { id, value } => !before.contains_key(id) && after.contains_key(id) && value
            == after[id],
        ChangeDoc::Remove { id, value } => before.contains_key(id) && !after.contains_key(id)
            && value == before[id],
        ChangeDoc::Update { id, fields } => before.contains_key(id) && after.contains_key(id)
            && fields.len() > 0 && is_delta(fields, before[id], after[id]),
    }
}

/// Whether a list holds, in ascending order of the row ids, one change for each
/// row that differs, and no other change.
pub open spec fn is_diff(changes: Seq<ChangeDoc>, before: Rows, after: Rows) -> bool {
    &&& sorted_map::ascending(change::ids_of(changes))
    &&& forall|i: int| 0 <= i < changes.len() ==> fits(#[trigger] changes[i], before, after)
    &&& forall|id: Seq<char>|
        #[trigger] change::ids_of(changes).contains(id) <==> differs(before, after, id)
}

/// What an answer to a request for differences looks like.
pub open spec fn changes_doc(changes: Seq<ChangeDoc>) -> Doc {
    Tree::Object(map!["changes"@ => Tree::List(change::changes_list(changes))])
}

/// The rows before and after that a request for differences names.
pub open spec fn read_sides(request: Doc) -> Result<(Rows, Rows), Fault> {
    match request {
        Tree::Object(m) => match rows::read_rows(value::entry(m, "before"@), "/before"@) {
            Err(e) => Err(e),
            Ok(before) => match rows::read_rows(value::entry(m, "after"@), "/after"@) {
                Err(e) => Err(e),
                Ok(after) => Ok((before, after)),
            },
        },
        _ => Err(fault::bad("request body must be a JSON object"@, ""@)),
    }
}

/// As `parts`, where a side may be missing.
pub open spec fn parts_option(s: Option<Doc>, t: Option<Doc>, p: Path) -> bool {
    match (s, t) {
        (Some(a), Some(b)) => parts(a, b, p),
        (None, None) => false,
        _ => p.len() == 0,
    }
}

/// As `lookup`, where the document may be missing.
pub open spec fn lookup_option(s: Option<Doc>, p: Path) -> Option<Doc> {
    match s {
        Some(a) => tree::lookup(a, p),
        None => None,
    }
}

/// Whether each field change tells what stands at its path below `base`.
pub open spec fn tells(
    fields: Seq<Field>,
    base: Seq<char>,
    s: Option<Doc>,
    t: Option<Doc>,
    qs: Seq<Path>,
) -> bool {
    &&& fields.len() == qs.len()
    &&& forall|i: int|
        0 <= i < fields.len() ==> {
            &&& (#[trigger] fields[i]).wf()
            &&& fields[i].path@ == base + pointer::pointer_text(qs[i])
            &&& json::option_doc(fields[i].old) == lookup_option(s, qs[i])
            &&& json::option_doc(fields[i].new) == lookup_option(t, qs[i])
        }
}

/// What a comparison of values recurses on.
pub open spec fn extent(j: Option<&Json>) -> Json {
    match j {
        Some(v) => *v,
        None => Json::Null,
    }
}

spec fn prepend(k: Seq<char>, qs: Seq<Path>) -> Seq<Path> {
    Seq::new(qs.len(), |i: int| seq![k] + qs[i])
}

proof fn lemma_step_path(k: Seq<char>, q: Path)
    ensures
        (seq![k] + q)[0] == k,
        (seq![k] + q).drop_first() == q,
        pointer::pointer_text(seq![k] + q) == seq!['/'] + pointer::escape(k)
            + pointer::pointer_text(q),
{
    assert((seq![k] + q).drop_first() =~= q);
}

/// Documents part below a key that both have where its values part.
proof fn lemma_parts_step(m: Map<Seq<char>, Doc>, n: Map<Seq<char>, Doc>, p: Path)
    ensures
        parts(Tree::Object(m), Tree::Object(n), p) == (p.len() > 0 && if m.contains_key(p[0])
            && n.contains_key(p[0]) {
            parts(m[p[0]], n[p[0]], p.drop_first())
        } else {
            p.len() == 1 && (m.contains_key(p[0]) || n.contains_key(p[0]))
        }),
{
}

proof fn lemma_tells_below(
    fields: Seq<Field>,
    base: Seq<char>,
    k: Seq<char>,
    m: Map<Seq<char>, Doc>,
    n: Map<Seq<char>, Doc>,
    qs: Seq<Path>,
)
    requires
        m.contains_key(k),
        n.contains_key(k),
        tells(fields, fault::child(base, pointer::escape(k)), Some(m[k]), Some(n[k]), qs),
    ensures
        tells(fields, base, Some(Tree::Object(m)), Some(Tree::Object(n)), prepend(k, qs)),
{
    assert forall|i: int| 0 <= i < fields.len() implies {
        &&& (#[trigger] fields[i]).wf()
        &&& fields[i].path@ == base + pointer::pointer_text(prepend(k, qs)[i])
        &&& json::option_doc(fields[i].old) == lookup_option(
            Some(Tree::Object(m)),
            prepend(k, qs)[i],
        )
        &&& json::option_doc(fields[i].new) == lookup_option(
            Some(Tree::Object(n)),
            prepend(k, qs)[i],
        )
    } by {
        lemma_step_path(k, qs[i]);
        assert(fields[i].path@ =~= base + pointer::pointer_text(prepend(k, qs)[i]));
    }
}

proof fn lemma_tells_more(
    a: Seq<Field>,
    b: Seq<Field>,
    base: Seq<char>,
    s: Option<Doc>,
    t: Option<Doc>,
    qs: Seq<Path>,
    rs: Seq<Path>,
)
    requires
        tells(a, base, s, t, qs),
        tells(b, base, s, t, rs),
    ensures
        tells(a + b, base, s, t, qs + rs),
{
    let c = a + b;
    assert forall|i: int| 0 <= i < c.len() implies {
        &&& (#[trigger] c[i]).wf()
        &&& c[i].path@ == base + pointer::pointer_text((qs + rs)[i])
        &&& json::option_doc(c[i].old) == lookup_option(s, (qs + rs)[i])
        &&& json::option_doc(c[i].new) == lookup_option(t, (qs + rs)[i])
    } by {
        if i < a.len() {
            assert(c[i] == a[i]);
        } else {
            assert(c[i] == b[i - a.len()]);
        }
    }
}

/// The paths found so far, with those below one more key.
proof fn lemma_more_paths(qs: Seq<Path>, k: Seq<char>, rs: Seq<Path>)
    requires
        qs.no_duplicates(),
        rs.no_duplicates(),
        forall|q: Path| #[trigger] qs.contains(q) ==> q.len() > 0 && q[0] != k,
    ensures
        (qs + prepend(k, rs)).no_duplicates(),
        forall|q: Path| #[trigger]
            (qs + prepend(k, rs)).contains(q) <==> qs.contains(q) || (q.len() > 0 && q[0] == k
                && rs.contains(q.drop_first())),
{
    let b = prepend(k, rs);
    let c = qs + b;
    assert forall|i: int| 0 <= i < b.len() implies #[trigger] b[i].len() > 0 && b[i][0] == k
        && b[i].drop_first() == rs[i] by {
        lemma_step_path(k, rs[i]);
    }
    assert forall|i: int, j: int| 0 <= i < c.len() && 0 <= j < c.len() && i != j implies c[i]
        != c[j] by {
        if i < qs.len() {
            assert(qs.contains(qs[i]));
        }
        if j < qs.len() {
            assert(qs.contains(qs[j]));
        }
        if i >= qs.len() && j >= qs.len() {
            assert(b[i - qs.len()].drop_first() == rs[i - qs.len()]);
            assert(b[j - qs.len()].drop_first() == rs[j - qs.len()]);
        }
    }
    assert forall|q: Path| #[trigger] c.contains(q) <==> qs.contains(q) || (q.len() > 0 && q[0] == k
        && rs.contains(q.drop_first())) by {
        if c.contains(q) {
            let i = choose|i: int| 0 <= i < c.len() && c[i] == q;
            if i < qs.len() {
                assert(qs[i] == q);
            } else {
                assert(b[i - qs.len()] == q);
                assert(rs[i - qs.len()] == q.drop_first());
            }
        }
        if qs.contains(q) {
            let i = choose|i: int| 0 <= i < qs.len() && qs[i] == q;
            assert(c[i] == q);
        }
        if q.len() > 0 && q[0] == k && rs.contains(q.drop_first()) {
            let i = choose|i: int| 0 <= i < rs.len() && rs[i] == q.drop_first();
            assert(q =~= seq![k] + rs[i]);
            assert(c[qs.len() + i] == q);
        }
    }
}

proof fn lemma_key_not_taken(ks: Seq<Seq<char>>, i: int)
    requires
        sorted_map::ascending(ks),
        0 <= i < ks.len(),
    ensures
        !ks.take(i).contains(ks[i]),
{
    if ks.take(i).contains(ks[i]) {
        let a = ks.take(i);
        let j = choose|j: int| 0 <= j < a.len() && a[j] == ks[i];
        sorted_map::lemma_ascending_distinct(ks, j, i);
    }
}

/// Compares two values and appends what differs to `out`. Objects are compared
/// member by member, everything else as a whole.
pub(crate) fn diff_value(
    path: &str,
    old_value: Option<&Json>,
    new_value: Option<&Json>,
    out: &mut Vec<Field>,
) -> (found: Ghost<Seq<Path>>)
    requires
        old_value matches Some(j) ==> json::json_wf(*j),
        new_value matches Some(j) ==> json::json_wf(*j),
    ensures
        final(out)@.len() >= old(out)@.len(),
        final(out)@.take(old(out)@.len() as int) == old(out)@,
        tells(
            final(out)@.skip(old(out)@.len() as int),
            path@,
            json::ref_doc(old_value),
            json::ref_doc(new_value),
            found@,
        ),
        found@.no_duplicates(),
        forall|q: Path| #[trigger]
            found@.contains(q) <==> parts_option(json::ref_doc(old_value), json::ref_doc(new_value), q),
    decreases extent(old_value),
{
    let ghost n0 = out@.len() as int;
    let ghost out0 = out@;
    let ghost s = json::ref_doc(old_value);
    let ghost t = json::ref_doc(new_value);
    if let (Some(Json::Object(a)), Some(Json::Object(b))) = (old_value, new_value) {
        let ghost mut qs: Seq<Path> = Seq::empty();
        let ghost m = json::map_docs(a@);
        let ghost n = json::map_docs(b@);
        proof {
            json::lemma_object_doc(*a);
            json::lemma_object_doc(*b);
            assert(out@.skip(n0) =~= Seq::empty());
            assert(out@.take(n0) =~= out0);
            assert(a.keys().take(0) =~= Seq::empty());
        }
        for i in 0..a.entries.len()
            invariant
                old_value == Some(&Json::Object(*a)),
                json::map_wf(*a),
                json::map_wf(*b),
                m == json::map_docs(a@),
                n == json::map_docs(b@),
                s == Some(Tree::<Seq<char>>::Object(m)),
                t == Some(Tree::<Seq<char>>::Object(n)),
                n0 <= out@.len(),
                out@.take(n0) == out0,
                n0 == out0.len(),
                tells(out@.skip(n0), path@, s, t, qs),
                qs.no_duplicates(),
                forall|q: Path| #[trigger]
                    qs.contains(q) <==> parts_option(s, t, q) && a.keys().take(i as int).contains(
                        q[0],
                    ),
        {
            let key = &a.entries[i].0;
            let ghost k = key@;
            let ghost before = out@;
            let child = child_path(path, escape_segment(key.as_str()).as_str());
            proof {
                sorted_map::lemma_map_of_entry(a.entries@, i as int);
                assert(a.keys()[i as int] == k);
                assert(m.contains_key(k) && m[k] == a.entries@[i as int].1@);
                lemma_key_not_taken(a.keys(), i as int);
                assert forall|q: Path| #[trigger] qs.contains(q) implies q.len() > 0 && q[0]
                    != k by {
                    lemma_parts_step(m, n, q);
                }
            }
            let ghost mut rs: Seq<Path> = Seq::empty();
            match get(b, key.as_str()) {
                Some(other) => {
                    proof {
                        let whole = extent(old_value);
                        assert(whole == Json::Object(*a));
                        assert(decreases_to!(whole => whole->Object_0.entries@[i as int].1));
                    }
                    let below = diff_value(child.as_str(), Some(&a.entries[i].1), Some(other), out);
                    proof {
                        rs = below@;
                        lemma_tells_below(out@.skip(before.len() as int), path@, k, m, n, rs);
                        assert(out@.skip(n0) =~= before.skip(n0) + out@.skip(before.len() as int)) by {
                            assert(out@.take(before.len() as int) == before);
                            assert forall|j: int| 0 <= j < before.len() implies out@[j]
                                == before[j] by {
                                assert(out@.take(before.len() as int)[j] == before[j]);
                            }
                        }
                        assert(out@.take(n0) =~= out0) by {
                            assert forall|j: int| 0 <= j < n0 implies out@[j] == out0[j] by {
                                assert(out@.take(before.len() as int)[j] == before[j]);
                                assert(before.take(n0)[j] == out0[j]);
                            }
                        }
                        lemma_tells_more(
                            before.skip(n0),
                            out@.skip(before.len() as int),
                            path@,
                            s,
                            t,
                            qs,
                            prepend(k, rs),
                        );
                    }
                },
                None => {
                    let field = Field {
                        path: child,
                        old: Some(a.entries[i].1.copy()),
                        new: None,
                    };
                    let ghost f = field;
                    out.push(field);
                    proof {
                        rs = seq![Seq::empty()];
                        lemma_told_key(f, path@, k, m, n);
                        assert(prepend(k, rs) =~= seq![seq![k] + Seq::<Seq<char>>::empty()]);
                        assert(out@.skip(n0) =~= before.skip(n0) + seq![f]);
                        assert(out@.take(n0) =~= before.take(n0));
                        lemma_tells_more(before.skip(n0), seq![f], path@, s, t, qs, prepend(k, rs));
                    }
                },
            }
            proof {
                let was = qs;
                lemma_more_paths(qs, k, rs);
                qs = qs + prepend(k, rs);
                assert forall|q: Path| #[trigger]
                    qs.contains(q) <==> parts_option(s, t, q) && a.keys().take(i + 1).contains(
                        q[0],
                    ) by {
                    sorted_map::lemma_taken_key(a.keys(), i as int, q[0]);
                    lemma_parts_step(m, n, q);
                    lemma_root_only(q);
                }
            }
        }
        proof {
            assert(a.keys().take(a.entries@.len() as int) =~= a.keys());
            assert(b.keys().take(0) =~= Seq::empty());
            assert forall|q: Path| #[trigger]
                qs.contains(q) <==> parts_option(s, t, q) && (m.contains_key(q[0])
                    || b.keys().take(0).contains(q[0])) by {
                assert(m.contains_key(q[0]) == a.keys().contains(q[0]));
            }
        }
        for i in 0..b.entries.len()
            invariant
                json::map_wf(*a),
                json::map_wf(*b),
                m == json::map_docs(a@),
                n == json::map_docs(b@),
                s == Some(Tree::<Seq<char>>::Object(m)),
                t == Some(Tree::<Seq<char>>::Object(n)),
                n0 <= out@.len(),
                out@.take(n0) == out0,
                n0 == out0.len(),
                tells(out@.skip(n0), path@, s, t, qs),
                qs.no_duplicates(),
                forall|q: Path| #[trigger]
                    qs.contains(q) <==> parts_option(s, t, q) && (m.contains_key(q[0])
                        || b.keys().take(i as int).contains(q[0])),
        {
            let key = &b.entries[i].0;
            let ghost k = key@;
            let ghost before = out@;
            proof {
                sorted_map::lemma_map_of_entry(b.entries@, i as int);
                assert(b.keys()[i as int] == k);
                assert(n.contains_key(k) && n[k] == b.entries@[i as int].1@);
                assert(m.contains_key(k) == a@.contains_key(k));
            }
            if !a.contains_key(key.as_str()) {
                let field = Field {
                    path: child_path(path, escape_segment(key.as_str()).as_str()),
                    old: None,
                    new: Some(b.entries[i].1.copy()),
                };
                let ghost f = field;
                out.push(field);
                proof {
                    let rs = seq![Seq::empty()];
                    lemma_key_not_taken(b.keys(), i as int);
                    assert forall|q: Path| #[trigger] qs.contains(q) implies q.len() > 0 && q[0]
                        != k by {
                        lemma_parts_step(m, n, q);
                    }
                    lemma_told_key(f, path@, k, m, n);
                    assert(prepend(k, rs) =~= seq![seq![k] + Seq::<Seq<char>>::empty()]);
                    assert(out@.skip(n0) =~= before.skip(n0) + seq![f]);
                    assert(out@.take(n0) =~= before.take(n0));
                    lemma_tells_more(before.skip(n0), seq![f], path@, s, t, qs, prepend(k, rs));
                    lemma_more_paths(qs, k, rs);
                    qs = qs + prepend(k, rs);
                    assert forall|q: Path| #[trigger]
                        qs.contains(q) <==> parts_option(s, t, q) && (m.contains_key(q[0])
                            || b.keys().take(i + 1).contains(q[0])) by {
                        sorted_map::lemma_taken_key(b.keys(), i as int, q[0]);
                        lemma_parts_step(m, n, q);
                        lemma_root_only(q);
                    }
                }
            } else {
                proof {
                    assert forall|q: Path| #[trigger]
                        qs.contains(q) <==> parts_option(s, t, q) && (m.contains_key(q[0])
                            || b.keys().take(i + 1).contains(q[0])) by {
                        sorted_map::lemma_taken_key(b.keys(), i as int, q[0]);
                    }
                }
            }
        }
        proof {
            assert(b.keys().take(b.entries@.len() as int) =~= b.keys());
            assert forall|q: Path| #[trigger] qs.contains(q) <==> parts_option(s, t, q) by {
                lemma_parts_step(m, n, q);
                assert(n.contains_key(q[0]) == b.keys().contains(q[0]));
            }
        }
        Ghost(qs)
    } else {
        let equal = match (old_value, new_value) {
            (Some(x), Some(y)) => json_eq(x, y),
            (None, None) => true,
            _ => false,
        };
        let ghost mut qs: Seq<Path> = Seq::empty();
        if !equal {
            let field = Field {
                path: path.to_owned(),
                old: copy_ref(old_value),
                new: copy_ref(new_value),
            };
            let ghost f = field;
            out.push(field);
            proof {
                qs = seq![Seq::empty()];
                assert(out@.skip(n0) =~= seq![f]);
                assert(path@ + Seq::<char>::empty() =~= path@);
                assert(out@.take(n0) =~= out0);
            }
        } else {
            proof {
                assert(out@.skip(n0) =~= Seq::empty());
                assert(out@.take(n0) =~= out0);
            }
        }
        proof {
            assert forall|q: Path| #[trigger] qs.contains(q) <==> parts_option(s, t, q) by {
                lemma_root_only(q);
                if q.len() == 0 {
                    assert(q =~= Seq::empty());
                    if !equal {
                        assert(qs[0] == q);
                    }
                }
            }
        }
        Ghost(qs)
    }
}

proof fn lemma_root_only(q: Path)
    ensures
        seq![Seq::<Seq<char>>::empty()].contains(q) <==> q.len() == 0,
        q.len() > 0 ==> (seq![Seq::<Seq<char>>::empty()].contains(q.drop_first()) <==> q.len()
            == 1),
{
    let one = seq![Seq::<Seq<char>>::empty()];
    if q.len() == 0 {
        assert(q =~= Seq::empty());
        assert(one[0] == q);
    }
    if q.len() == 1 {
        assert(q.drop_first() =~= Seq::empty());
        assert(one[0] == q.drop_first());
    }
}

/// A field change for a key that only one object has.
proof fn lemma_told_key(
    f: Field,
    base: Seq<char>,
    k: Seq<char>,
    m: Map<Seq<char>, Doc>,
    n: Map<Seq<char>, Doc>,
)
    requires
        f.wf(),
        f.path@ == fault::child(base, pointer::escape(k)),
        json::option_doc(f.old) == value::entry(m, k),
        json::option_doc(f.new) == value::entry(n, k),
    ensures
        tells(
            seq![f],
            base,
            Some(Tree::Object(m)),
            Some(Tree::Object(n)),
            seq![seq![k] + Seq::<Seq<char>>::empty()],
        ),
{
    let q = seq![k] + Seq::<Seq<char>>::empty();
    lemma_step_path(k, Seq::empty());
    assert(f.path@ =~= base + pointer::pointer_text(q));
    reveal_with_fuel(tree::lookup, 2);
}

/// Where a path has to be inserted among paths in ascending order.
fn place(fields: &Vec<Field>, path: &str) -> (at: usize)
    requires
        sorted_map::ascending(change::paths_of(change::field_docs(fields@))),
        forall|i: int| 0 <= i < fields@.len() ==> (#[trigger] fields@[i]).path@ != path@,
    ensures
        at <= fields@.len(),
        forall|i: int| 0 <= i < at ==> text::precedes((#[trigger] fields@[i]).path@, path@),
        forall|i: int|
            at <= i < fields@.len() ==> text::precedes(path@, (#[trigger] fields@[i]).path@),
{
    let mut lo: usize = 0;
    let mut hi: usize = fields.len();
    let ghost ks = change::paths_of(change::field_docs(fields@));
    while lo < hi
        invariant
            lo <= hi <= fields@.len(),
            ks == change::paths_of(change::field_docs(fields@)),
            sorted_map::ascending(ks),
            forall|i: int| 0 <= i < fields@.len() ==> (#[trigger] fields@[i]).path@ != path@,
            forall|i: int| 0 <= i < lo ==> text::precedes((#[trigger] fields@[i]).path@, path@),
            forall|i: int|
                hi <= i < fields@.len() ==> text::precedes(path@, (#[trigger] fields@[i]).path@),
        decreases hi - lo,
    {
        let mid: usize = lo + (hi - lo) / 2;
        proof {
            assert(ks[mid as int] == fields@[mid as int].path@);
            text::lemma_precedes_total(ks[mid as int], path@);
        }
        if matches!(rank(fields[mid].path.as_str(), path), Rank::Before) {
            proof {
                assert forall|i: int| 0 <= i < mid + 1 implies text::precedes(
                    (#[trigger] fields@[i]).path@,
                    path@,
                ) by {
                    if i < mid {
                        assert(text::precedes(ks[i], ks[mid as int]));
                        text::lemma_precedes_transitive(ks[i], ks[mid as int], path@);
                    }
                }
            }
            lo = mid + 1;
        } else {
            proof {
                assert forall|i: int| mid <= i < fields@.len() implies text::precedes(
                    path@,
                    (#[trigger] fields@[i]).path@,
                ) by {
                    if i > mid {
                        assert(text::precedes(ks[mid as int], ks[i]));
                        text::lemma_precedes_transitive(path@, ks[mid as int], ks[i]);
                    }
                }
            }
            hi = mid;
        }
    }
    lo
}

proof fn lemma_insert_sorted(s: Seq<FieldDoc>, at: int, f: FieldDoc)
    requires
        sorted_map::ascending(change::paths_of(s)),
        0 <= at <= s.len(),
        forall|i: int| 0 <= i < at ==> text::precedes((#[trigger] s[i]).path, f.path),
        forall|i: int| at <= i < s.len() ==> text::precedes(f.path, (#[trigger] s[i]).path),
    ensures
        sorted_map::ascending(change::paths_of(s.insert(at, f))),
        forall|g: FieldDoc| #[trigger]
            s.insert(at, f).contains(g) <==> s.contains(g) || g == f,
{
    let t = s.insert(at, f);
    let a = change::paths_of(s);
    let b = change::paths_of(t);
    assert forall|i: int, j: int| 0 <= i < j < b.len() implies text::precedes(
        #[trigger] b[i],
        #[trigger] b[j],
    ) by {
        if i != at && j != at {
            let x = if i < at { i } else { i - 1 };
            let y = if j < at { j } else { j - 1 };
            assert(text::precedes(a[x], a[y]));
        } else if i == at {
            assert(b[j] == s[j - 1].path);
        } else {
            assert(b[i] == s[i].path);
        }
    }
    assert forall|g: FieldDoc| #[trigger] t.contains(g) <==> s.contains(g) || g == f by {
        if t.contains(g) {
            let i = choose|i: int| 0 <= i < t.len() && t[i] == g;
            if i < at {
                assert(s[i] == g);
            } else if i > at {
                assert(s[i - 1] == g);
            }
        }
        if s.contains(g) {
            let i = choose|i: int| 0 <= i < s.len() && s[i] == g;
            if i < at {
                assert(t[i] == g);
            } else {
                assert(t[i + 1] == g);
            }
        }
        if g == f {
            assert(t[at] == g);
        }
    }
}

/// Puts field changes with different paths into ascending order of their paths.
fn sort_fields(fields: Vec<Field>) -> (r: Vec<Field>)
    requires
        forall|i: int| 0 <= i < fields@.len() ==> (#[trigger] fields@[i]).wf(),
        forall|i: int, j: int|
            0 <= i < j < fields@.len() ==> (#[trigger] fields@[i]).path@ != (
            #[trigger] fields@[j]).path@,
    ensures
        forall|i: int| 0 <= i < r@.len() ==> (#[trigger] r@[i]).wf(),
        r@.len() == fields@.len(),
        sorted_map::ascending(change::paths_of(change::field_docs(r@))),
        forall|f: FieldDoc| #[trigger]
            change::field_docs(r@).contains(f) <==> change::field_docs(fields@).contains(f),
{
    let mut rest = fields;
    let mut r: Vec<Field> = Vec::new();
    let ghost all = change::field_docs(fields@);
    let ghost n = fields@.len();
    proof {
        assert(all.skip(n as int) =~= Seq::empty());
        assert(change::field_docs(r@) =~= Seq::empty());
    }
    loop
        invariant
            all == change::field_docs(fields@),
            n == fields@.len(),
            rest@.len() <= n,
            rest@ == fields@.take(rest@.len() as int),
            r@.len() == n - rest@.len(),
            forall|i: int| 0 <= i < fields@.len() ==> (#[trigger] fields@[i]).wf(),
            forall|i: int, j: int|
                0 <= i < j < fields@.len() ==> (#[trigger] fields@[i]).path@ != (
                #[trigger] fields@[j]).path@,
            forall|i: int| 0 <= i < r@.len() ==> (#[trigger] r@[i]).wf(),
            sorted_map::ascending(change::paths_of(change::field_docs(r@))),
            forall|f: FieldDoc| #[trigger]
                change::field_docs(r@).contains(f) <==> all.skip(rest@.len() as int).contains(f),
        ensures
            rest@.len() == 0,
        decreases rest@.len(),
    {
        let ghost left = rest@;
        match rest.pop() {
            None => {
                break;
            },
            Some(field) => {
                let ghost k = rest@.len() as int;
                let ghost f = field@;
                let ghost done = change::field_docs(r@);
                proof {
                    assert(left[k] == fields@[k]);
                    assert(rest@ =~= fields@.take(k));
                    assert(field == fields@[k]);
                    assert forall|i: int| 0 <= i < r@.len() implies (#[trigger] r@[i]).path@
                        != field.path@ by {
                        assert(done[i] == r@[i]@);
                        assert(done.contains(done[i]));
                        let tail = all.skip(k + 1);
                        let j = choose|j: int| 0 <= j < tail.len() && tail[j] == done[i];
                        assert(tail[j] == fields@[k + 1 + j]@);
                        assert(fields@[k].path@ != fields@[k + 1 + j].path@);
                    }
                }
                let at = place(&r, field.path.as_str());
                proof {
                    assert forall|i: int| 0 <= i < at implies text::precedes(
                        (#[trigger] done[i]).path,
                        f.path,
                    ) by {
                        assert(done[i].path == r@[i].path@);
                    }
                    assert forall|i: int| at <= i < done.len() implies text::precedes(
                        f.path,
                        (#[trigger] done[i]).path,
                    ) by {
                        assert(done[i].path == r@[i].path@);
                    }
                    lemma_insert_sorted(done, at as int, f);
                }
                let ghost r0 = r@;
                r.insert(at, field);
                proof {
                    assert(change::field_docs(r@) =~= done.insert(at as int, f));
                    assert forall|i: int| 0 <= i < r@.len() implies (#[trigger] r@[i]).wf() by {
                        if i < at {
                            assert(r@[i] == r0[i]);
                        } else if i > at {
                            assert(r@[i] == r0[i - 1]);
                        }
                    }
                    let tail = all.skip(k + 1);
                    let more = all.skip(k);
                    assert(more =~= seq![f] + tail);
                    assert forall|g: FieldDoc| #[trigger] change::field_docs(r@).contains(g) <==> more.contains(
                        g,
                    ) by {
                        if g == f {
                            assert(more[0] == g);
                        }
                        if tail.contains(g) {
                            let j = choose|j: int| 0 <= j < tail.len() && tail[j] == g;
                            assert(more[j + 1] == g);
                        }
                        if more.contains(g) && g != f {
                            let j = choose|j: int| 0 <= j < more.len() && more[j] == g;
                            assert(tail[j - 1] == g);
                        }
                    }
                }
            },
        }
    }
    assert(all.skip(0) =~= all);
    r
}

/// A list that tells of every parting path, once in order, is the difference.
proof fn lemma_is_delta(fields: Seq<Field>, sorted: Seq<FieldDoc>, s: Doc, t: Doc, qs: Seq<Path>)
    requires
        tells(fields, Seq::empty(), Some(s), Some(t), qs),
        forall|q: Path| #[trigger] qs.contains(q) <==> parts(s, t, q),
        sorted_map::ascending(change::paths_of(sorted)),
        forall|f: FieldDoc| #[trigger]
            sorted.contains(f) <==> change::field_docs(fields).contains(f),
    ensures
        is_delta(sorted, s, t),
{
    let docs = change::field_docs(fields);
    assert forall|i: int| 0 <= i < docs.len() implies #[trigger] docs[i] == field_at(
        s,
        t,
        qs[i],
    ) by {
        assert(docs[i] == fields[i]@);
        assert(Seq::<char>::empty() + pointer::pointer_text(qs[i]) =~= pointer::pointer_text(
            qs[i],
        ));
    }
    assert forall|i: int| 0 <= i < sorted.len() implies is_parting(
        #[trigger] sorted[i],
        s,
        t,
    ) by {
        assert(sorted.contains(sorted[i]));
        let j = choose|j: int| 0 <= j < docs.len() && docs[j] == sorted[i];
        assert(qs.contains(qs[j]));
        assert(parts(s, t, qs[j]));
    }
    assert forall|p: Path| #[trigger] parts(s, t, p) implies sorted.contains(field_at(s, t, p)) by {
        assert(qs.contains(p));
        let j = choose|j: int| 0 <= j < qs.len() && qs[j] == p;
        assert(docs[j] == field_at(s, t, p));
        assert(docs.contains(docs[j]));
    }
}

/// Documents part somewhere exactly if they differ.
pub proof fn lemma_parts_iff_different(s: Doc, t: Doc)
    ensures
        (exists|p: Path| parts(s, t, p)) <==> value::normal(s) != value::normal(t),
{
    let a = value::normal(s);
    let b = value::normal(t);
    if exists|p: Path| parts(s, t, p) {
        let p = choose|p: Path| parts(s, t, p);
        tree::lemma_part_differs(a, b, p);
    } else {
        tree::lemma_agree_outside_partings(a, b);
        assert forall|p: Path| !tree::partings(a, b).contains(p) by {
            assert(!parts(s, t, p));
        }
        assert(tree::partings(a, b) =~= Set::empty());
        tree::lemma_agree_everywhere(a, b);
    }
}

/// The difference is empty exactly between equal documents.
pub proof fn law_delta_empty_iff_equal(fields: Seq<FieldDoc>, s: Doc, t: Doc)
    requires
        is_delta(fields, s, t),
    ensures
        fields.len() == 0 <==> value::normal(s) == value::normal(t),
{
    lemma_parts_iff_different(s, t);
    if fields.len() > 0 {
        assert(is_parting(fields[0], s, t));
        let p = choose|p: Path| #[trigger] parts(s, t, p) && fields[0] == field_at(s, t, p);
        assert(parts(s, t, p));
    } else if value::normal(s) != value::normal(t) {
        let p = choose|p: Path| parts(s, t, p);
        assert(fields.contains(field_at(s, t, p)));
    }
}

/// The difference below one row.
fn row_delta(before: &Json, after: &Json) -> (r: Vec<Field>)
    requires
        json::json_wf(*before),
        json::json_wf(*after),
    ensures
        forall|i: int| 0 <= i < r@.len() ==> (#[trigger] r@[i]).wf(),
        is_delta(change::field_docs(r@), before@, after@),
{
    let mut fields: Vec<Field> = Vec::new();
    let found = diff_value("", Some(before), Some(after), &mut fields);
    proof {
        reveal_strlit("");
        assert(""@ =~= Seq::empty());
        assert(fields@.skip(0) =~= fields@);
        assert forall|i: int, j: int| 0 <= i < j < fields@.len() implies (#[trigger] fields@[i]).path@
            != (#[trigger] fields@[j]).path@ by {
            if fields@[i].path@ == fields@[j].path@ {
                assert(fields@[i].path@ =~= pointer::pointer_text(found@[i]));
                assert(fields@[j].path@ =~= pointer::pointer_text(found@[j]));
                pointer::law_pointer_injective(found@[i], found@[j]);
            }
        }
    }
    let ghost fs = fields@;
    let r = sort_fields(fields);
    proof {
        assert forall|q: Path| #[trigger] found@.contains(q) <==> parts(before@, after@, q) by {
            assert(parts_option(Some(before@), Some(after@), q) == parts(before@, after@, q));
        }
        lemma_is_delta(fs, change::field_docs(r@), before@, after@, found@);
    }
    r
}

proof fn lemma_pushed_change(changes: Seq<ChangeDoc>, c: ChangeDoc)
    requires
        sorted_map::ascending(change::ids_of(changes)),
        forall|id: Seq<char>| #[trigger]
            change::ids_of(changes).contains(id) ==> text::precedes(id, c.id()),
    ensures
        sorted_map::ascending(change::ids_of(changes.push(c))),
        forall|id: Seq<char>| #[trigger]
            change::ids_of(changes.push(c)).contains(id) <==> change::ids_of(changes).contains(id)
                || id == c.id(),
        change::changes_list(changes.push(c)) == change::changes_list(changes).push(
            change::change_doc(c),
        ),
{
    let a = change::ids_of(changes);
    let b = change::ids_of(changes.push(c));
    assert(b =~= a.push(c.id()));
    assert forall|i: int, j: int| 0 <= i < j < b.len() implies text::precedes(
        #[trigger] b[i],
        #[trigger] b[j],
    ) by {
        assert(a.contains(a[i]));
        assert(b[i] == a[i]);
        if j < a.len() {
            assert(b[j] == a[j]);
        }
    }
    assert forall|id: Seq<char>| #[trigger] b.contains(id) <==> a.contains(id) || id == c.id() by {
        if b.contains(id) {
            let i = choose|i: int| 0 <= i < b.len() && b[i] == id;
            if i < a.len() {
                assert(a[i] == id);
            }
        }
        if a.contains(id) {
            let i = choose|i: int| 0 <= i < a.len() && a[i] == id;
            assert(b[i] == id);
        }
        if id == c.id() {
            assert(b[a.len() as int] == id);
        }
    }
    assert(change::changes_list(changes.push(c)) =~= change::changes_list(changes).push(
        change::change_doc(c),
    ));
}

/// Whether two ascending lists are split so that what comes first on either side
/// precedes what comes later on the other.
spec fn split(a: Seq<Seq<char>>, i: int, b: Seq<Seq<char>>, j: int) -> bool {
    &&& forall|x: int, y: int|
        0 <= x < i && j <= y < b.len() ==> text::precedes(#[trigger] a[x], #[trigger] b[y])
    &&& forall|x: int, y: int|
        i <= x < a.len() && 0 <= y < j ==> text::precedes(#[trigger] b[y], #[trigger] a[x])
}

/// What stands before the split precedes the least that stands after it.
proof fn lemma_split_least(
    a: Seq<Seq<char>>,
    i: int,
    b: Seq<Seq<char>>,
    j: int,
    k: Seq<char>,
)
    requires
        sorted_map::ascending(a),
        sorted_map::ascending(b),
        split(a, i, b, j),
        0 <= i <= a.len(),
        0 <= j <= b.len(),
        i < a.len() && a[i] == k || j < b.len() && b[j] == k,
        i < a.len() ==> a[i] == k || text::precedes(k, a[i]),
        j < b.len() ==> b[j] == k || text::precedes(k, b[j]),
    ensures
        forall|id: Seq<char>|
            a.take(i).contains(id) || b.take(j).contains(id) ==> text::precedes(id, k),
        a.contains(k) <==> i < a.len() && a[i] == k,
        b.contains(k) <==> j < b.len() && b[j] == k,
        split(
            a,
            if i < a.len() && a[i] == k { i + 1 } else { i },
            b,
            if j < b.len() && b[j] == k { j + 1 } else { j },
        ),
{
    let a1 = a.take(i);
    let b1 = b.take(j);
    assert forall|id: Seq<char>| a1.contains(id) || b1.contains(id) implies text::precedes(
        id,
        k,
    ) by {
        if a1.contains(id) {
            let x = choose|x: int| 0 <= x < a1.len() && a1[x] == id;
            assert(a[x] == id);
            if i < a.len() && a[i] == k {
                assert(text::precedes(a[x], a[i]));
            } else {
                assert(text::precedes(a[x], b[j]));
            }
        } else {
            let y = choose|y: int| 0 <= y < b1.len() && b1[y] == id;
            assert(b[y] == id);
            if j < b.len() && b[j] == k {
                assert(text::precedes(b[y], b[j]));
            } else {
                assert(text::precedes(b[y], a[i]));
            }
        }
    }
    assert forall|x: int| i < x < a.len() implies text::precedes(k, #[trigger] a[x]) by {
        assert(text::precedes(a[i], a[x]));
        if a[i] != k {
            text::lemma_precedes_transitive(k, a[i], a[x]);
        }
    }
    assert forall|y: int| j < y < b.len() implies text::precedes(k, #[trigger] b[y]) by {
        assert(text::precedes(b[j], b[y]));
        if b[j] != k {
            text::lemma_precedes_transitive(k, b[j], b[y]);
        }
    }
    text::lemma_precedes_irreflexive(k);
    if a.contains(k) {
        let x = choose|x: int| 0 <= x < a.len() && a[x] == k;
        if x < i {
            assert(a1[x] == k);
            assert(a1.contains(k));
        }
    }
    if b.contains(k) {
        let y = choose|y: int| 0 <= y < b.len() && b[y] == k;
        if y < j {
            assert(b1[y] == k);
            assert(b1.contains(k));
        }
    }
    let i2 = if i < a.len() && a[i] == k { i + 1 } else { i };
    let j2 = if j < b.len() && b[j] == k { j + 1 } else { j };
    assert forall|x: int, y: int| 0 <= x < i2 && j2 <= y < b.len() implies text::precedes(
        #[trigger] a[x],
        #[trigger] b[y],
    ) by {
        if x == i {
            assert(a[x] == k);
        }
    }
    assert forall|x: int, y: int| i2 <= x < a.len() && 0 <= y < j2 implies text::precedes(
        #[trigger] b[y],
        #[trigger] a[x],
    ) by {
        if y == j {
            assert(b[y] == k);
        }
    }
}

/// The rows that a merge has passed.
spec fn passed(a: Seq<Seq<char>>, i: int, b: Seq<Seq<char>>, j: int, id: Seq<char>) -> bool {
    a.take(i).contains(id) || b.take(j).contains(id)
}

proof fn lemma_passed_step(a: Seq<Seq<char>>, i: int, b: Seq<Seq<char>>, j: int, k: Seq<char>, id: Seq<char>)
    requires
        0 <= i <= a.len(),
        0 <= j <= b.len(),
        i < a.len() && a[i] == k || j < b.len() && b[j] == k,
    ensures
        passed(
            a,
            if i < a.len() && a[i] == k { i + 1 } else { i },
            b,
            if j < b.len() && b[j] == k { j + 1 } else { j },
            id,
        ) <==> passed(a, i, b, j, id) || id == k,
{
    if i < a.len() {
        sorted_map::lemma_taken_key(a, i, id);
    }
    if j < b.len() {
        sorted_map::lemma_taken_key(b, j, id);
    }
}

/// The changes that lead from one set of rows to another, as they are written out.
fn diff_rows(before: &SortedMap<Json>, after: &SortedMap<Json>) -> (r: (
    Vec<Json>,
    Ghost<Seq<ChangeDoc>>,
))
    requires
        json::map_wf(*before),
        json::map_wf(*after),
    ensures
        forall|i: int| 0 <= i < r.0@.len() ==> json::json_wf(#[trigger] r.0@[i]),
        json::list_docs(r.0@) == change::changes_list(r.1@),
        is_diff(r.1@, json::map_docs(before@), json::map_docs(after@)),
{
    let mut changes: Vec<Json> = Vec::new();
    let mut i: usize = 0;
    let mut j: usize = 0;
    let ghost mut cs: Seq<ChangeDoc> = Seq::empty();
    let ghost m = json::map_docs(before@);
    let ghost n = json::map_docs(after@);
    let ghost a = before.keys();
    let ghost b = after.keys();
    proof {
        assert(a.take(0) =~= Seq::empty());
        assert(b.take(0) =~= Seq::empty());
        assert(json::list_docs(changes@) =~= change::changes_list(cs));
        assert(change::ids_of(cs) =~= Seq::empty());
    }
    while i < before.entries.len() || j < after.entries.len()
        invariant
            json::map_wf(*before),
            json::map_wf(*after),
            m == json::map_docs(before@),
            n == json::map_docs(after@),
            a == before.keys(),
            b == after.keys(),
            i <= before.entries@.len(),
            j <= after.entries@.len(),
            split(a, i as int, b, j as int),
            forall|x: int| 0 <= x < changes@.len() ==> json::json_wf(#[trigger] changes@[x]),
            json::list_docs(changes@) == change::changes_list(cs),
            sorted_map::ascending(change::ids_of(cs)),
            forall|x: int| 0 <= x < cs.len() ==> fits(#[trigger] cs[x], m, n),
            forall|id: Seq<char>| #[trigger]
                change::ids_of(cs).contains(id) <==> differs(m, n, id) && passed(
                    a,
                    i as int,
                    b,
                    j as int,
                    id,
                ),
        decreases before.entries@.len() - i + (after.entries@.len() - j),
    {
        let order = if i >= before.entries.len() {
            Rank::After
        } else if j >= after.entries.len() {
            Rank::Before
        } else {
            rank(before.entries[i].0.as_str(), after.entries[j].0.as_str())
        };
        let ghost k = if order is After {
            b[j as int]
        } else {
            a[i as int]
        };
        proof {
            if i < a.len() {
                assert(a[i as int] == before.entries@[i as int].0@);
                sorted_map::lemma_map_of_entry(before.entries@, i as int);
            }
            if j < b.len() {
                assert(b[j as int] == after.entries@[j as int].0@);
                sorted_map::lemma_map_of_entry(after.entries@, j as int);
            }
            if i < a.len() && j < b.len() {
                text::lemma_precedes_total(a[i as int], b[j as int]);
                if text::precedes(a[i as int], b[j as int]) {
                    text::lemma_precedes_asymmetric(a[i as int], b[j as int]);
                }
            }
            lemma_split_least(a, i as int, b, j as int, k);
            assert(m.contains_key(k) == a.contains(k));
            assert(n.contains_key(k) == b.contains(k));
            assert forall|id: Seq<char>| #[trigger] change::ids_of(cs).contains(id) implies text::precedes(
                id,
                k,
            ) by {}
        }
        let ghost i0 = i as int;
        let ghost j0 = j as int;
        let ghost cs0 = cs;
        let ghost shown = json::list_docs(changes@);
        match order {
            Rank::Before => {
                let (id, row) = (&before.entries[i].0, &before.entries[i].1);
                assert(json::json_wf(*row));
                changes.push(row_change(id.as_str(), "remove", row));
                i = i + 1;
                proof {
                    let c = ChangeDoc::Remove { id: k, value: m[k] };
                    lemma_pushed_change(cs, c);
                    cs = cs.push(c);
                    assert(json::list_docs(changes@) =~= shown.push(change::change_doc(c)));
                }
            },
            Rank::After => {
                let (id, row) = (&after.entries[j].0, &after.entries[j].1);
                assert(json::json_wf(*row));
                changes.push(row_change(id.as_str(), "add", row));
                j = j + 1;
                proof {
                    let c = ChangeDoc::Add { id: k, value: n[k] };
                    lemma_pushed_change(cs, c);
                    cs = cs.push(c);
                    assert(json::list_docs(changes@) =~= shown.push(change::change_doc(c)));
                }
            },
            Rank::Same => {
                let (id, row) = (&after.entries[j].0, &after.entries[j].1);
                assert(json::json_wf(*row));
                assert(json::json_wf(before.entries@[i as int].1));
                let fields = row_delta(&before.entries[i].1, row);
                proof {
                    law_delta_empty_iff_equal(change::field_docs(fields@), m[k], n[k]);
                }
                if fields.len() > 0 {
                    changes.push(update_change(id.as_str(), fields.as_slice()));
                    proof {
                        let c = ChangeDoc::Update { id: k, fields: change::field_docs(fields@) };
                        lemma_pushed_change(cs, c);
                        cs = cs.push(c);
                        assert(json::list_docs(changes@) =~= shown.push(change::change_doc(c)));
                    }
                }
                i = i + 1;
                j = j + 1;
            },
        }
        proof {
            assert forall|id: Seq<char>| #[trigger]
                change::ids_of(cs).contains(id) <==> differs(m, n, id) && passed(
                    a,
                    i as int,
                    b,
                    j as int,
                    id,
                ) by {
                lemma_passed_step(a, i0, b, j0, k, id);
                assert(change::ids_of(cs0).contains(id) <==> differs(m, n, id) && passed(
                    a,
                    i0,
                    b,
                    j0,
                    id,
                ));
            }
        }
    }
    proof {
        assert(a.take(i as int) =~= a);
        assert(b.take(j as int) =~= b);
        assert forall|id: Seq<char>| #[trigger]
            change::ids_of(cs).contains(id) <==> differs(m, n, id) by {
            assert(m.contains_key(id) == a.contains(id));
            assert(n.contains_key(id) == b.contains(id));
        }
    }
    (changes, Ghost(cs))
}

/// Tells the changes that lead from the rows `before` to the rows `after`.
pub fn diff(request: &Json) -> (r: Result<Json, ApiError>)
    requires
        json::json_wf(*request),
    ensures
        match r {
            Ok(answer) => json::json_wf(answer) && read_sides(request@) is Ok && exists|
                changes: Seq<ChangeDoc>,
            | #[trigger]
                is_diff(changes, read_sides(request@)->Ok_0.0, read_sides(request@)->Ok_0.1)
                    && answer@ == changes_doc(changes),
            Err(e) => read_sides(request@) == Err::<(Rows, Rows), Fault>(e@),
        },
{
    let m = match request_object(request) {
        Ok(m) => m,
        Err(e) => {
            return Err(e);
        },
    };
    let before = match parse_rows(get(m, "before"), "/before") {
        Ok(before) => before,
        Err(e) => {
            return Err(e);
        },
    };
    let after = match parse_rows(get(m, "after"), "/after") {
        Ok(after) => after,
        Err(e) => {
            return Err(e);
        },
    };
    let (changes, Ghost(cs)) = diff_rows(&before, &after);
    let answer = object(with(no_members(), "changes", list(changes)));
    proof {
        let sides = read_sides(request@);
        assert(sides == Ok::<(Rows, Rows), Fault>(
            (json::map_docs(before@), json::map_docs(after@)),
        ));
        assert(is_diff(cs, sides->Ok_0.0, sides->Ok_0.1));
        assert(answer@ == changes_doc(cs));
    }
    Ok(answer)
}

proof fn lemma_delta_paths(fields: Seq<FieldDoc>, s: Doc, t: Doc, x: Seq<char>)
    requires
        is_delta(fields, s, t),
    ensures
        change::paths_of(fields).contains(x) <==> exists|p: Path| #[trigger]
            parts(s, t, p) && pointer::pointer_text(p) == x,
{
    let ks = change::paths_of(fields);
    if ks.contains(x) {
        let i = choose|i: int| 0 <= i < ks.len() && ks[i] == x;
        assert(is_parting(fields[i], s, t));
    }
    if exists|p: Path| #[trigger] parts(s, t, p) && pointer::pointer_text(p) == x {
        let p = choose|p: Path| #[trigger] parts(s, t, p) && pointer::pointer_text(p) == x;
        let i = choose|i: int| 0 <= i < fields.len() && fields[i] == field_at(s, t, p);
        assert(ks[i] == x);
    }
}

/// Two documents have only one difference.
pub proof fn law_delta_unique(f: Seq<FieldDoc>, g: Seq<FieldDoc>, s: Doc, t: Doc)
    requires
        is_delta(f, s, t),
        is_delta(g, s, t),
    ensures
        f == g,
{
    let a = change::paths_of(f);
    let b = change::paths_of(g);
    assert forall|x: Seq<char>| a.contains(x) == b.contains(x) by {
        lemma_delta_paths(f, s, t, x);
        lemma_delta_paths(g, s, t, x);
    }
    sorted_map::lemma_ascending_unique(a, b);
    assert(f.len() == a.len() && g.len() == b.len());
    assert forall|i: int| 0 <= i < f.len() implies f[i] == g[i] by {
        assert(a[i] == b[i]);
        assert(is_parting(f[i], s, t) && is_parting(g[i], s, t));
        let p = choose|p: Path| #[trigger] parts(s, t, p) && f[i] == field_at(s, t, p);
        let q = choose|q: Path| #[trigger] parts(s, t, q) && g[i] == field_at(s, t, q);
        pointer::law_pointer_injective(p, q);
    }
    assert(f =~= g);
}

/// Two sets of rows have only one difference.
pub proof fn law_diff_unique(
    c: Seq<ChangeDoc>,
    d: Seq<ChangeDoc>,
    before: Rows,
    after: Rows,
)
    requires
        is_diff(c, before, after),
        is_diff(d, before, after),
    ensures
        c == d,
{
    let a = change::ids_of(c);
    let b = change::ids_of(d);
    assert forall|x: Seq<char>| a.contains(x) == b.contains(x) by {
        assert(a.contains(x) <==> differs(before, after, x));
        assert(b.contains(x) <==> differs(before, after, x));
    }
    sorted_map::lemma_ascending_unique(a, b);
    assert(c.len() == a.len() && d.len() == b.len());
    assert forall|i: int| 0 <= i < c.len() implies c[i] == d[i] by {
        assert(a[i] == b[i]);
        assert(fits(c[i], before, after) && fits(d[i], before, after));
        if let (
            ChangeDoc::Update { id, fields: f },
            ChangeDoc::Update { id: id2, fields: g },
        ) = (c[i], d[i]) {
            law_delta_unique(f, g, before[id], after[id]);
        }
    }
    assert(c =~= d);
}

/// The difference is empty exactly between equal rows.
pub proof fn law_diff_empty_iff_equal(c: Seq<ChangeDoc>, before: Rows, after: Rows)
    requires
        is_diff(c, before, after),
    ensures
        c.len() == 0 <==> forall|id: Seq<char>| !differs(before, after, id),
{
    let ids = change::ids_of(c);
    if c.len() > 0 {
        assert(ids.contains(ids[0]));
        assert(differs(before, after, ids[0]));
    } else {
        assert forall|id: Seq<char>| !differs(before, after, id) by {
            assert(!ids.contains(id));
        }
    }
}

/// Two documents part exactly at the places to which objects lead in both, and
/// where what stands there, numbers by what they are, differs without both being
/// objects.
pub proof fn law_parts(s: Doc, t: Doc, p: Path)
    ensures
        parts(s, t, p) <==> {
            &&& forall|i: int|
                0 <= i < p.len() ==> (tree::lookup(s, #[trigger] p.take(i)) matches Some(
                    Tree::Object(_),
                )) && (tree::lookup(t, p.take(i)) matches Some(Tree::Object(_)))
            &&& value::normal_option(tree::lookup(s, p)) != value::normal_option(tree::lookup(t, p))
            &&& !((tree::lookup(s, p) matches Some(Tree::Object(_))) && (tree::lookup(t, p) matches Some(
                Tree::Object(_),
            )))
        },
{
    let f = value::by_value();
    let (a, b) = (value::normal(s), value::normal(t));
    tree::law_part_at(a, b, p);
    tree::lemma_relabel_lookup(s, p, f);
    tree::lemma_relabel_lookup(t, p, f);
    assert forall|i: int| 0 <= i < p.len() implies ((tree::lookup(s, #[trigger] p.take(i)) matches Some(
        Tree::Object(_),
    )) <==> (tree::lookup(a, p.take(i)) matches Some(Tree::Object(_)))) && ((tree::lookup(
        t,
        p.take(i),
    ) matches Some(Tree::Object(_))) <==> (tree::lookup(b, p.take(i)) matches Some(
        Tree::Object(_),
    ))) by {
        tree::lemma_relabel_lookup(s, p.take(i), f);
        tree::lemma_relabel_lookup(t, p.take(i), f);
    }
}

/// The field changes between two documents tell every place where they part,
/// with what stood there and what stands there then, and nothing else, in
/// ascending order of the paths.
pub proof fn law_delta(fields: Seq<FieldDoc>, s: Doc, t: Doc, n: int)
    requires
        is_delta(fields, s, t),
    ensures
        forall|i: int, j: int|
            0 <= i < j < fields.len() ==> text::precedes(
                (#[trigger] fields[i]).path,
                (#[trigger] fields[j]).path,
            ),
        0 <= n < fields.len() ==> exists|p: Path| #[trigger]
            parts(s, t, p) && fields[n].path == pointer::pointer_text(p) && fields[n].old
                == tree::lookup(s, p) && fields[n].new == tree::lookup(t, p),
        forall|p: Path| #[trigger]
            parts(s, t, p) ==> fields.contains(
                FieldDoc {
                    path: pointer::pointer_text(p),
                    old: tree::lookup(s, p),
                    new: tree::lookup(t, p),
                },
            ),
{
    let ps = change::paths_of(fields);
    assert forall|i: int, j: int| 0 <= i < j < fields.len() implies text::precedes(
        (#[trigger] fields[i]).path,
        (#[trigger] fields[j]).path,
    ) by {
        assert(text::precedes(ps[i], ps[j]));
    }
    if 0 <= n < fields.len() {
        assert(is_parting(fields[n], s, t));
        let p = choose|p: Path| #[trigger] parts(s, t, p) && fields[n] == field_at(s, t, p);
        assert(parts(s, t, p));
    }
    assert forall|p: Path| #[trigger] parts(s, t, p) implies fields.contains(
        FieldDoc {
            path: pointer::pointer_text(p),
            old: tree::lookup(s, p),
            new: tree::lookup(t, p),
        },
    ) by {
        assert(fields.contains(field_at(s, t, p)));
    }
}

/// A difference tells of every row what became of it: nothing where it is equal
/// by value on both sides, that it was added or removed with all its values where
/// only one side has it, and its field changes where both have it and they
/// differ; one change for each row, in ascending order of the ids.
pub proof fn law_diff_tells_rows(changes: Seq<ChangeDoc>, before: Rows, after: Rows, id: Seq<char>)
    requires
        is_diff(changes, before, after),
    ensures
        forall|i: int, j: int|
            0 <= i < j < changes.len() ==> text::precedes(
                (#[trigger] changes[i]).id(),
                (#[trigger] changes[j]).id(),
            ),
        !before.contains_key(id) && !after.contains_key(id) ==> forall|i: int|
            0 <= i < changes.len() ==> (#[trigger] changes[i]).id() != id,
        !before.contains_key(id) && after.contains_key(id) ==> changes.contains(
            ChangeDoc::Add { id, value: after[id] },
        ),
        before.contains_key(id) && !after.contains_key(id) ==> changes.contains(
            ChangeDoc::Remove { id, value: before[id] },
        ),
        before.contains_key(id) && after.contains_key(id) && value::normal(before[id])
            == value::normal(after[id]) ==> forall|i: int|
            0 <= i < changes.len() ==> (#[trigger] changes[i]).id() != id,
        before.contains_key(id) && after.contains_key(id) && value::normal(before[id])
            != value::normal(after[id]) ==> exists|i: int|
            0 <= i < changes.len() && (#[trigger] changes[i] matches ChangeDoc::Update {
                id: q,
                fields,
            } && q == id && fields.len() > 0 && is_delta(fields, before[id], after[id])),
{
    let ids = change::ids_of(changes);
    assert forall|i: int, j: int| 0 <= i < j < changes.len() implies text::precedes(
        (#[trigger] changes[i]).id(),
        (#[trigger] changes[j]).id(),
    ) by {
        assert(text::precedes(ids[i], ids[j]));
    }
    if differs(before, after, id) {
        assert(ids.contains(id));
        let i = choose|i: int| 0 <= i < ids.len() && ids[i] == id;
        assert(fits(changes[i], before, after));
        assert(changes[i].id() == id);
    } else {
        assert forall|i: int| 0 <= i < changes.len() implies (#[trigger] changes[i]).id() != id by {
            assert(ids[i] == changes[i].id());
            if changes[i].id() == id {
                assert(ids.contains(id));
            }
        }
    }
}

/// The answer of a difference is an object of nothing but its changes.
pub proof fn law_diff_is_told(changes: Seq<ChangeDoc>)
    ensures
        changes_doc(changes) == Tree::<Seq<char>>::Object(
            map!["changes"@ => Tree::List(
                Seq::new(changes.len(), |i: int| change::change_doc(changes[i])),
            )],
        ),
{
    assert(change::changes_list(changes) =~= Seq::new(
        changes.len(),
        |i: int| change::change_doc(changes[i]),
    ));
}

/// The two sides of a request are the rows at `before` and those at `after`,
/// each by itself and whatever the other is.
pub proof fn law_sides_are_read(request: Doc, before: Rows, after: Rows)
    ensures
        read_sides(request) == Ok::<(Rows, Rows), Fault>((before, after)) <==> (request matches Tree::Object(
            m,
        ) && m.contains_key("before"@) && m.contains_key("after"@) && rows::read_rows(
            Some(m["before"@]),
            "/before"@,
        ) == Ok::<Rows, Fault>(before) && rows::read_rows(Some(m["after"@]), "/after"@) == Ok::<
            Rows,
            Fault,
        >(after)),
{
    if let Tree::Object(m) = request {
        if !m.contains_key("before"@) {
            assert(rows::read_rows(None, "/before"@) is Err);
        }
        if !m.contains_key("after"@) {
            assert(rows::read_rows(None, "/after"@) is Err);
        }
    }
}

/// A request whose sides are not both lists of rows is refused with 400; what
/// comes before decides before what comes after.
pub proof fn law_bad_sides(request: Doc)
    ensures
        !(request is Object) ==> read_sides(request) == Err::<(Rows, Rows), Fault>(
            fault::bad("request body must be a JSON object"@, ""@),
        ),
        request matches Tree::Object(m) ==> {
            let b = rows::read_rows(
                if m.contains_key("before"@) {
                    Some(m["before"@])
                } else {
                    None
                },
                "/before"@,
            );
            let a = rows::read_rows(
                if m.contains_key("after"@) {
                    Some(m["after"@])
                } else {
                    None
                },
                "/after"@,
            );
            &&& b is Err ==> read_sides(request) == Err::<(Rows, Rows), Fault>(b->Err_0)
            &&& b is Ok && a is Err ==> read_sides(request) == Err::<(Rows, Rows), Fault>(a->Err_0)
        },
{
}

} // verus!
