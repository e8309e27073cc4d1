//! The mathematical model of JSON documents, and reading and writing them by path.
use vstd::prelude::*;

verus! {

/// A JSON document as a mathematical value. `N` is what a number stands for.
pub enum Tree<N> {
    Null,
    Bool(bool),
    Num(N),
    Text(Seq<char>),
    List(Seq<Tree<N>>),
    Object(Map<Seq<char>, Tree<N>>),
}

/// A document whose numbers are kept as they were written.
pub type Doc = Tree<Seq<char>>;

/// The object keys that lead from a document's root to a place in it.
pub type Path = Seq<Seq<char>>;

/// The same document with every number replaced.
pub open spec fn relabel<A, B>(t: Tree<A>, f: spec_fn(A) -> B) -> Tree<B>
    decreases t,
{
    match t {
        Tree::Null => Tree::Null,
        Tree::Bool(b) => Tree::Bool(b),
        Tree::Num(n) => Tree::Num(f(n)),
        Tree::Text(s) => Tree::Text(s),
        Tree::List(s) => Tree::List(
            Seq::new(
                s.len(),
                |i: int|
                    if 0 <= i < s.len() {
                        relabel(s[i], f)
                    } else {
                        Tree::Null
                    },
            ),
        ),
        Tree::Object(m) => Tree::Object(
            Map::new(
                |k: Seq<char>| m.contains_key(k),
                |k: Seq<char>|
                    if m.contains_key(k) {
                        relabel(m[k], f)
                    } else {
                        Tree::Null
                    },
            ),
        ),
    }
}

/// What stands at a path, if every step leads through an object that has the key.
pub open spec fn lookup<N>(t: Tree<N>, p: Path) -> Option<Tree<N>>
    decreases p.len(),
{
    if p.len() == 0 {
        Some(t)
    } else {
        match t {
            Tree::Object(m) => if m.contains_key(p[0]) {
                lookup(m[p[0]], p.drop_first())
            } else {
                None
            },
            _ => None,
        }
    }
}

/// Whether every step but the last leads to an existing object.
pub open spec fn has_parent<N>(t: Tree<N>, p: Path) -> bool
    decreases p.len(),
{
    if p.len() <= 1 {
        true
    } else {
        match t {
            Tree::Object(m) => m.contains_key(p[0]) && m[p[0]] is Object && has_parent(
                m[p[0]],
                p.drop_first(),
            ),
            _ => false,
        }
    }
}

/// The document with `x` at the path; `None` where the path has no parent object.
pub open spec fn assign<N>(t: Tree<N>, p: Path, x: Tree<N>) -> Option<Tree<N>>
    decreases p.len(),
{
    match t {
        Tree::Object(m) => if p.len() <= 1 {
            Some(Tree::Object(m.insert(p[0], x)))
        } else if m.contains_key(p[0]) && m[p[0]] is Object {
            match assign(m[p[0]], p.drop_first(), x) {
                Some(child) => Some(Tree::Object(m.insert(p[0], child))),
                None => None,
            }
        } else {
            None
        },
        _ => if p.len() <= 1 {
            Some(t)
        } else {
            None
        },
    }
}

/// The document without what stands at the path.
pub open spec fn erase<N>(t: Tree<N>, p: Path) -> Tree<N>
    decreases p.len(),
{
    match t {
        Tree::Object(m) => if p.len() <= 1 {
            Tree::Object(m.remove(p[0]))
        } else if m.contains_key(p[0]) && m[p[0]] is Object {
            Tree::Object(m.insert(p[0], erase(m[p[0]], p.drop_first())))
        } else {
            t
        },
        _ => t,
    }
}

/// Assigns a value, or erases where there is none.
pub open spec fn put<N>(t: Tree<N>, p: Path, x: Option<Tree<N>>) -> Option<Tree<N>> {
    match x {
        Some(v) => assign(t, p, v),
        None => Some(erase(t, p)),
    }
}

/// Whether one path leads to or through the place of the other.
pub open spec fn nested(p: Path, q: Path) -> bool {
    p.is_prefix_of(q) || q.is_prefix_of(p)
}

/// Applies a replacement to an optional document.
pub open spec fn relabel_option<A, B>(t: Option<Tree<A>>, f: spec_fn(A) -> B) -> Option<Tree<B>> {
    match t {
        Some(x) => Some(relabel(x, f)),
        None => None,
    }
}

/// Reading and replacing numbers commute.
pub proof fn lemma_relabel_lookup<A, B>(t: Tree<A>, p: Path, f: spec_fn(A) -> B)
    ensures
        lookup(relabel(t, f), p) == relabel_option(lookup(t, p), f),
    decreases p.len(),
{
    if p.len() > 0 {
        if let Tree::Object(m) = t {
            if m.contains_key(p[0]) {
                lemma_relabel_lookup(m[p[0]], p.drop_first(), f);
            }
        }
    }
}

/// Replacing numbers keeps which paths have parents.
pub proof fn lemma_relabel_parent<A, B>(t: Tree<A>, p: Path, f: spec_fn(A) -> B)
    ensures
        has_parent(relabel(t, f), p) == has_parent(t, p),
    decreases p.len(),
{
    if p.len() > 1 {
        if let Tree::Object(m) = t {
            if m.contains_key(p[0]) {
                lemma_relabel_parent(m[p[0]], p.drop_first(), f);
            }
        }
    }
}

proof fn lemma_relabel_insert<A, B>(
    m: Map<Seq<char>, Tree<A>>,
    k: Seq<char>,
    x: Tree<A>,
    f: spec_fn(A) -> B,
)
    ensures
        relabel(Tree::Object(m.insert(k, x)), f) == Tree::Object(
            relabel(Tree::Object(m), f)->Object_0.insert(k, relabel(x, f)),
        ),
{
    assert(relabel(Tree::Object(m.insert(k, x)), f)->Object_0 =~= relabel(
        Tree::Object(m),
        f,
    )->Object_0.insert(k, relabel(x, f)));
}

/// Writing and replacing numbers commute.
pub proof fn lemma_relabel_put<A, B>(t: Tree<A>, p: Path, x: Option<Tree<A>>, f: spec_fn(A) -> B)
    ensures
        put(relabel(t, f), p, relabel_option(x, f)) == relabel_option(put(t, p, x), f),
    decreases p.len(),
{
    if let Tree::Object(m) = t {
        let r = relabel(t, f)->Object_0;
        if p.len() <= 1 {
            match x {
                Some(v) => lemma_relabel_insert(m, p[0], v, f),
                None => {
                    assert(relabel(Tree::Object(m.remove(p[0])), f)->Object_0 =~= r.remove(p[0]));
                },
            }
        } else if m.contains_key(p[0]) && m[p[0]] is Object {
            lemma_relabel_put(m[p[0]], p.drop_first(), x, f);
            match put(m[p[0]], p.drop_first(), x) {
                Some(child) => lemma_relabel_insert(m, p[0], child, f),
                None => {},
            }
        }
    }
}

/// The paths in `holes` that start with `k`, without that first step.
pub open spec fn below(holes: Set<Path>, k: Seq<char>) -> Set<Path> {
    Set::new(|q: Path| holes.contains(seq![k] + q))
}

/// Whether two documents are the same but for what stands at the given paths.
pub open spec fn agree<N>(s: Tree<N>, t: Tree<N>, holes: Set<Path>) -> bool
    decreases s,
{
    ||| holes.contains(Seq::empty())
    ||| s == t
    ||| match (s, t) {
        (Tree::Object(m), Tree::Object(n)) => forall|k: Seq<char>|
            #![trigger m.contains_key(k)]
            #![trigger n.contains_key(k)]
            #![trigger below(holes, k)]
            below(holes, k).contains(Seq::empty()) || (m.contains_key(k) == n.contains_key(k) && (
            m.contains_key(k) ==> agree(m[k], n[k], below(holes, k)))),
        _ => false,
    }
}

/// Documents that agree everywhere are the same.
pub proof fn lemma_agree_everywhere<N>(s: Tree<N>, t: Tree<N>)
    requires
        agree(s, t, Set::empty()),
    ensures
        s == t,
    decreases s,
{
    if s != t {
        if let (Tree::Object(m), Tree::Object(n)) = (s, t) {
            assert forall|k: Seq<char>| m.contains_key(k) == n.contains_key(k) && (m.contains_key(
                k,
            ) ==> m[k] == n[k]) by {
                assert(below(Set::empty(), k) =~= Set::empty());
                if m.contains_key(k) {
                    lemma_agree_everywhere(m[k], n[k]);
                }
            }
            assert(m =~= n);
        }
    }
}

proof fn lemma_below_split(p: Path)
    requires
        p.len() > 0,
    ensures
        seq![p[0]] + p.drop_first() == p,
{
    assert(seq![p[0]] + p.drop_first() =~= p);
}

/// Writing inside a hole keeps the agreement.
pub proof fn lemma_put_in_hole<N>(
    s: Tree<N>,
    t: Tree<N>,
    holes: Set<Path>,
    p: Path,
    x: Option<Tree<N>>,
)
    requires
        agree(s, t, holes),
        holes.contains(p),
        p.len() > 0,
        put(s, p, x) is Some,
    ensures
        agree(put(s, p, x)->0, t, holes),
    decreases p.len(),
{
    let r = put(s, p, x)->0;
    lemma_below_split(p);
    if !holes.contains(Seq::empty()) && r != s {
        let m = s->Object_0;
        let k0 = p[0];
        let q = p.drop_first();
        assert(below(holes, k0).contains(q));
        assert(s is Object && r is Object);
        let w = r->Object_0;
        // Either the documents were equal, or both are objects.
        assert(t is Object);
        let n = t->Object_0;
        if q.len() == 0 {
            assert(q =~= Seq::empty());
        } else {
            assert(m.contains_key(k0));
            if !below(holes, k0).contains(Seq::empty()) {
                assert(n.contains_key(k0));
                assert(agree(m[k0], n[k0], below(holes, k0)));
                lemma_put_in_hole(m[k0], n[k0], below(holes, k0), q, x);
            }
        }
        assert forall|k: Seq<char>|
            #![trigger w.contains_key(k)]
            #![trigger n.contains_key(k)]
            #![trigger below(holes, k)]
            below(holes, k).contains(Seq::empty()) || (w.contains_key(k) == n.contains_key(k) && (
            w.contains_key(k) ==> agree(w[k], n[k], below(holes, k)))) by {
            if k != k0 {
                assert(w.contains_key(k) == m.contains_key(k));
            }
        }
    }
}

/// Filling a hole with what the other document has there closes it.
pub proof fn lemma_fill_hole<N>(
    s: Tree<N>,
    t: Tree<N>,
    holes: Set<Path>,
    p: Path,
)
    requires
        agree(s, t, holes.insert(p)),
        p.len() > 0,
        put(s, p, lookup(t, p)) is Some,
    ensures
        agree(put(s, p, lookup(t, p))->0, t, holes),
    decreases p.len(),
{
    let x = lookup(t, p);
    let r = put(s, p, x)->0;
    let wide = holes.insert(p);
    lemma_below_split(p);
    if !holes.contains(Seq::empty()) {
        assert(!wide.contains(Seq::empty()));
        match (s, t) {
            (Tree::Object(m), Tree::Object(n)) => {
                let k0 = p[0];
                let q = p.drop_first();
                let w = r->Object_0;
                assert(below(wide, k0) =~= below(holes, k0).insert(q)) by {
                    assert forall|u: Path| #[trigger] below(wide, k0).contains(u) == below(
                        holes,
                        k0,
                    ).insert(q).contains(u) by {
                        if seq![k0] + u == p {
                            assert(u =~= (seq![k0] + u).drop_first());
                        }
                    }
                }
                assert forall|k: Seq<char>| k != k0 implies #[trigger] below(wide, k) == below(
                    holes,
                    k,
                ) by {
                    assert forall|u: Path| #[trigger] below(wide, k).contains(u) == below(
                        holes,
                        k,
                    ).contains(u) by {
                        if seq![k] + u == p {
                            assert((seq![k] + u)[0] == k);
                        }
                    }
                    assert(below(wide, k) =~= below(holes, k));
                }
                if q.len() == 0 {
                    assert(q =~= Seq::empty());
                    assert(lookup(t, p) == if n.contains_key(k0) {
                        Some(n[k0])
                    } else {
                        None
                    }) by {
                        reveal_with_fuel(lookup, 2);
                    }
                } else if !below(holes, k0).contains(Seq::empty()) {
                    assert(m.contains_key(k0) == n.contains_key(k0));
                    if m.contains_key(k0) {
                        assert(agree(m[k0], n[k0], below(holes, k0).insert(q)));
                        if m[k0] is Object {
                            lemma_fill_hole(m[k0], n[k0], below(holes, k0), q);
                        } else {
                            assert(m[k0] == n[k0]);
                            assert(w[k0] == n[k0]);
                        }
                    } else {
                        assert(x is None);
                    }
                }
                assert forall|k: Seq<char>|
                    #![trigger w.contains_key(k)]
                    #![trigger n.contains_key(k)]
                    #![trigger below(holes, k)]
                    below(holes, k).contains(Seq::empty()) || (w.contains_key(k) == n.contains_key(
                        k,
                    ) && (w.contains_key(k) ==> agree(w[k], n[k], below(holes, k)))) by {
                    if k != k0 {
                        assert(below(wide, k) == below(holes, k));
                        assert(w.contains_key(k) == m.contains_key(k));
                        if m.contains_key(k) {
                            assert(w[k] == m[k]);
                        }
                    } else if q.len() == 0 {
                        assert(w.contains_key(k) == n.contains_key(k));
                    } else if !below(holes, k0).contains(Seq::empty()) {
                        assert(w.contains_key(k) == n.contains_key(k));
                        if w.contains_key(k) {
                            assert(agree(w[k], n[k], below(holes, k)));
                        }
                    }
                }
            },
            _ => {
                assert(s == t);
                assert(x is None);
            },
        }
    }
}

/// What can be read has a parent.
pub proof fn lemma_lookup_has_parent<N>(t: Tree<N>, p: Path)
    requires
        lookup(t, p) is Some,
        p.len() > 0,
    ensures
        has_parent(t, p),
        t is Object,
    decreases p.len(),
{
    if p.len() > 1 {
        let m = t->Object_0;
        lemma_lookup_has_parent(m[p[0]], p.drop_first());
    }
}

/// Below an object, a write succeeds exactly where there is a parent, and the
/// result holds what was written.
pub proof fn law_put_then_lookup<N>(t: Tree<N>, p: Path, x: Option<Tree<N>>)
    requires
        t is Object,
        p.len() > 0,
    ensures
        put(t, p, x) is Some <==> (x is None || has_parent(t, p)),
        put(t, p, x) matches Some(r) ==> r is Object && lookup(r, p) == x,
    decreases p.len(),
{
    let m = t->Object_0;
    if p.len() == 1 {
        reveal_with_fuel(lookup, 2);
    } else if m.contains_key(p[0]) && m[p[0]] is Object {
        law_put_then_lookup(m[p[0]], p.drop_first(), x);
    }
}

/// A write leaves what stands elsewhere as it was.
pub proof fn law_put_elsewhere<N>(t: Tree<N>, p: Path, x: Option<Tree<N>>, q: Path)
    requires
        put(t, p, x) is Some,
        p.len() > 0,
        !nested(p, q),
    ensures
        lookup(put(t, p, x)->0, q) == lookup(t, q),
        has_parent(put(t, p, x)->0, q) == has_parent(t, q),
        (put(t, p, x)->0 is Object) == (t is Object),
    decreases p.len(),
{
    let r = put(t, p, x)->0;
    if q.len() == 0 {
        assert(q.is_prefix_of(p)) by {
            assert(q =~= p.subrange(0, 0));
        }
    } else if t is Object {
        let m = t->Object_0;
        if p[0] == q[0] {
            let p1 = p.drop_first();
            let q1 = q.drop_first();
            assert(!nested(p1, q1)) by {
                if p1.is_prefix_of(q1) {
                    assert(p =~= seq![p[0]] + p1);
                    assert(p =~= q.subrange(0, p.len() as int));
                }
                if q1.is_prefix_of(p1) {
                    assert(q =~= seq![q[0]] + q1);
                    assert(q =~= p.subrange(0, q.len() as int));
                }
            }
            if p.len() == 1 {
                assert(p1 =~= q1.subrange(0, 0));
            } else if m.contains_key(p[0]) && m[p[0]] is Object {
                law_put_elsewhere(m[p[0]], p1, x, q1);
            }
        }
    }
}

/// Writes one after another; `None` where one of them has no parent object.
pub open spec fn run<N>(t: Tree<N>, writes: Seq<(Path, Option<Tree<N>>)>) -> Option<Tree<N>>
    decreases writes.len(),
{
    if writes.len() == 0 {
        Some(t)
    } else {
        match put(t, writes[0].0, writes[0].1) {
            Some(r) => run(r, writes.drop_first()),
            None => None,
        }
    }
}

/// The first write, made one after another, that has no parent object.
pub open spec fn first_lost<N>(t: Tree<N>, writes: Seq<(Path, Option<Tree<N>>)>) -> Option<nat>
    decreases writes.len(),
{
    if writes.len() == 0 {
        None
    } else {
        match put(t, writes[0].0, writes[0].1) {
            None => Some(0),
            Some(r) => match first_lost(r, writes.drop_first()) {
                Some(n) => Some(n + 1),
                None => None,
            },
        }
    }
}

/// Writes can all be made exactly where none has lost its parent object.
pub proof fn lemma_first_lost<N>(t: Tree<N>, writes: Seq<(Path, Option<Tree<N>>)>)
    ensures
        run(t, writes) is None <==> first_lost(t, writes) is Some,
        first_lost(t, writes) matches Some(n) ==> n < writes.len() && writes[n as int].1 is Some,
    decreases writes.len(),
{
    if writes.len() > 0 {
        if let Some(r) = put(t, writes[0].0, writes[0].1) {
            lemma_first_lost(r, writes.drop_first());
        }
    }
}

/// The same writes with every number replaced.
pub open spec fn relabel_writes<A, B>(
    writes: Seq<(Path, Option<Tree<A>>)>,
    f: spec_fn(A) -> B,
) -> Seq<(Path, Option<Tree<B>>)> {
    writes.map_values(|w: (Path, Option<Tree<A>>)| (w.0, relabel_option(w.1, f)))
}

/// Writing a sequence and replacing numbers commute.
pub proof fn lemma_relabel_run<A, B>(
    t: Tree<A>,
    writes: Seq<(Path, Option<Tree<A>>)>,
    f: spec_fn(A) -> B,
)
    ensures
        run(relabel(t, f), relabel_writes(writes, f)) == relabel_option(run(t, writes), f),
    decreases writes.len(),
{
    if writes.len() > 0 {
        let (p, x) = writes[0];
        lemma_relabel_put(t, p, x, f);
        match put(t, p, x) {
            Some(r) => {
                lemma_relabel_run(r, writes.drop_first(), f);
                assert(relabel_writes(writes, f).drop_first() =~= relabel_writes(
                    writes.drop_first(),
                    f,
                ));
            },
            None => {},
        }
    }
}

/// The paths that a sequence of writes touches.
pub open spec fn paths_of<N>(writes: Seq<(Path, Option<Tree<N>>)>) -> Set<Path> {
    Set::new(|p: Path| exists|i: int| 0 <= i < writes.len() && #[trigger] writes[i].0 == p)
}

/// Every write names at least one key.
pub open spec fn proper<N>(writes: Seq<(Path, Option<Tree<N>>)>) -> bool {
    forall|i: int| 0 <= i < writes.len() ==> (#[trigger] writes[i]).0.len() > 0
}

/// No write touches a place inside that of another one.
pub open spec fn separate<N>(writes: Seq<(Path, Option<Tree<N>>)>) -> bool {
    forall|i: int, j: int|
        0 <= i < writes.len() && 0 <= j < writes.len() && i != j ==> !nested(
            (#[trigger] writes[i]).0,
            (#[trigger] writes[j]).0,
        )
}

proof fn lemma_run_in_holes<N>(
    s: Tree<N>,
    t: Tree<N>,
    holes: Set<Path>,
    writes: Seq<(Path, Option<Tree<N>>)>,
)
    requires
        agree(s, t, holes),
        proper(writes),
        paths_of(writes).subset_of(holes),
        run(s, writes) is Some,
    ensures
        agree(run(s, writes)->0, t, holes),
    decreases writes.len(),
{
    if writes.len() > 0 {
        let (p, x) = writes[0];
        assert(paths_of(writes).contains(p));
        lemma_put_in_hole(s, t, holes, p, x);
        let rest = writes.drop_first();
        assert(proper(rest)) by {
            assert forall|i: int| 0 <= i < rest.len() implies (#[trigger] rest[i]).0.len() > 0 by {
                assert(rest[i] == writes[i + 1]);
            }
        }
        assert(paths_of(rest).subset_of(holes)) by {
            assert forall|q: Path| paths_of(rest).contains(q) implies holes.contains(q) by {
                let i = choose|i: int| 0 <= i < rest.len() && #[trigger] rest[i].0 == q;
                assert(writes[i + 1].0 == q);
                assert(paths_of(writes).contains(q));
            }
        }
        lemma_run_in_holes(put(s, p, x)->0, t, holes, rest);
    }
}

/// Where two documents agree outside the written paths, and the writes carry
/// what the second one has there, the writes turn the first into the second.
pub proof fn lemma_run_fills<N>(
    s: Tree<N>,
    t: Tree<N>,
    writes: Seq<(Path, Option<Tree<N>>)>,
)
    requires
        agree(s, t, paths_of(writes)),
        proper(writes),
        forall|i: int|
            0 <= i < writes.len() ==> (#[trigger] writes[i]).1 == lookup(t, writes[i].0),
        run(s, writes) is Some,
    ensures
        run(s, writes) == Some(t),
    decreases writes.len(),
{
    if writes.len() == 0 {
        assert(paths_of(writes) =~= Set::empty());
        lemma_agree_everywhere(s, t);
    } else {
        let (p, x) = writes[0];
        let rest = writes.drop_first();
        assert(paths_of(writes) =~= paths_of(rest).insert(p)) by {
            assert forall|q: Path| #[trigger] paths_of(writes).contains(q) implies paths_of(
                rest,
            ).insert(p).contains(q) by {
                let i = choose|i: int| 0 <= i < writes.len() && #[trigger] writes[i].0 == q;
                if i > 0 {
                    assert(rest[i - 1].0 == q);
                }
            }
            assert forall|q: Path| #[trigger] paths_of(rest).insert(p).contains(q) implies paths_of(
                writes,
            ).contains(q) by {
                if q != p {
                    let i = choose|i: int| 0 <= i < rest.len() && #[trigger] rest[i].0 == q;
                    assert(writes[i + 1].0 == q);
                } else {
                    assert(writes[0].0 == q);
                }
            }
        }
        lemma_fill_hole(s, t, paths_of(rest), p);
        assert forall|i: int| 0 <= i < rest.len() implies (#[trigger] rest[i]).0.len() > 0
            && rest[i].1 == lookup(t, rest[i].0) by {
            assert(rest[i] == writes[i + 1]);
        }
        lemma_run_fills(put(s, p, x)->0, t, rest);
    }
}

/// Writing back what stood at the written paths before restores the document.
pub proof fn law_undo<N>(
    t: Tree<N>,
    forward: Seq<(Path, Option<Tree<N>>)>,
    backward: Seq<(Path, Option<Tree<N>>)>,
)
    requires
        proper(forward),
        forward.len() == backward.len(),
        forall|i: int|
            0 <= i < forward.len() ==> (#[trigger] backward[i]).0 == forward[i].0 && backward[i].1
                == lookup(t, forward[i].0),
        run(t, forward) is Some,
        run(run(t, forward)->0, backward) is Some,
    ensures
        run(run(t, forward)->0, backward) == Some(t),
{
    let r = run(t, forward)->0;
    lemma_run_in_holes(t, t, paths_of(forward), forward);
    assert(paths_of(forward) =~= paths_of(backward)) by {
        assert forall|q: Path| #[trigger] paths_of(forward).contains(q) == paths_of(
            backward,
        ).contains(q) by {
            if paths_of(forward).contains(q) {
                let i = choose|i: int| 0 <= i < forward.len() && #[trigger] forward[i].0 == q;
                assert(backward[i].0 == q);
            }
            if paths_of(backward).contains(q) {
                let i = choose|i: int| 0 <= i < backward.len() && #[trigger] backward[i].0 == q;
                assert(forward[i].0 == q);
            }
        }
    }
    assert forall|i: int| 0 <= i < backward.len() implies (#[trigger] backward[i]).0.len() > 0
        && backward[i].1 == lookup(t, backward[i].0) by {
        assert(forward[i].0.len() > 0);
    }
    lemma_run_fills(r, t, backward);
}

/// Separate writes below an object all succeed where each had a parent to begin
/// with; afterwards each place holds what was written, and every place apart
/// from them is as it was.
pub proof fn lemma_run_separate<N>(t: Tree<N>, writes: Seq<(Path, Option<Tree<N>>)>)
    requires
        t is Object,
        proper(writes),
        separate(writes),
        forall|i: int|
            0 <= i < writes.len() && (#[trigger] writes[i]).1 is Some ==> has_parent(
                t,
                writes[i].0,
            ),
    ensures
        run(t, writes) is Some,
        run(t, writes)->0 is Object,
        forall|i: int|
            0 <= i < writes.len() ==> lookup(run(t, writes)->0, (#[trigger] writes[i]).0)
                == writes[i].1,
        forall|i: int|
            0 <= i < writes.len() && has_parent(t, (#[trigger] writes[i]).0) ==> has_parent(
                run(t, writes)->0,
                writes[i].0,
            ),
        forall|q: Path|
            (forall|i: int| 0 <= i < writes.len() ==> !nested(#[trigger] writes[i].0, q)) ==> (
            #[trigger] lookup(run(t, writes)->0, q)) == lookup(t, q) && has_parent(
                run(t, writes)->0,
                q,
            ) == has_parent(t, q),
    decreases writes.len(),
{
    if writes.len() > 0 {
        let (p, x) = writes[0];
        let rest = writes.drop_first();
        law_put_then_lookup(t, p, x);
        let u = put(t, p, x)->0;
        assert forall|i: int| 0 <= i < rest.len() implies {
            &&& (#[trigger] rest[i]).0.len() > 0
            &&& !nested(p, rest[i].0)
            &&& !nested(rest[i].0, p)
            &&& has_parent(u, rest[i].0) == has_parent(t, rest[i].0)
            &&& rest[i].1 is Some ==> has_parent(u, rest[i].0)
        } by {
            assert(rest[i] == writes[i + 1]);
            assert(!nested(writes[0].0, writes[i + 1].0));
            assert(!nested(writes[i + 1].0, writes[0].0));
            law_put_elsewhere(t, p, x, rest[i].0);
        }
        assert(separate(rest)) by {
            assert forall|i: int, j: int|
                0 <= i < rest.len() && 0 <= j < rest.len() && i != j implies !nested(
                (#[trigger] rest[i]).0,
                (#[trigger] rest[j]).0,
            ) by {
                assert(rest[i] == writes[i + 1] && rest[j] == writes[j + 1]);
            }
        }
        lemma_run_separate(u, rest);
        let r = run(t, writes)->0;
        assert(r == run(u, rest)->0);
        assert forall|i: int| 0 <= i < writes.len() implies lookup(r, (#[trigger] writes[i]).0)
            == writes[i].1 by {
            if i > 0 {
                assert(rest[i - 1] == writes[i]);
            } else {
                assert(lookup(r, p) == lookup(u, p));
            }
        }
        assert forall|i: int|
            0 <= i < writes.len() && has_parent(t, (#[trigger] writes[i]).0) implies has_parent(
            r,
            writes[i].0,
        ) by {
            if i > 0 {
                assert(rest[i - 1] == writes[i]);
            } else {
                lemma_put_keeps_parent(t, p, x);
                assert(lookup(r, p) == lookup(u, p));
            }
        }
        assert forall|q: Path|
            (forall|i: int| 0 <= i < writes.len() ==> !nested(#[trigger] writes[i].0, q)) implies (
        #[trigger] lookup(r, q)) == lookup(t, q) && has_parent(r, q) == has_parent(t, q) by {
            assert(!nested(writes[0].0, q));
            law_put_elsewhere(t, p, x, q);
            assert forall|i: int| 0 <= i < rest.len() implies !nested(#[trigger] rest[i].0, q) by {
                assert(rest[i] == writes[i + 1]);
            }
            assert(lookup(r, q) == lookup(u, q));
        }
    }
}

/// A write keeps the parent of its own place.
proof fn lemma_put_keeps_parent<N>(t: Tree<N>, p: Path, x: Option<Tree<N>>)
    requires
        put(t, p, x) is Some,
        p.len() > 0,
        has_parent(t, p),
    ensures
        has_parent(put(t, p, x)->0, p),
        t is Object ==> put(t, p, x)->0 is Object,
    decreases p.len(),
{
    if p.len() > 1 {
        let m = t->Object_0;
        lemma_put_keeps_parent(m[p[0]], p.drop_first(), x);
    }
}

/// Whether two documents part at a path: the path leads through objects that
/// both have, and there either only one of them has the key, or both have a
/// value, not both objects, and the values differ.
pub open spec fn part_at<N>(s: Tree<N>, t: Tree<N>, p: Path) -> bool
    decreases p.len(),
{
    match (s, t) {
        (Tree::Object(m), Tree::Object(n)) => p.len() > 0 && if m.contains_key(p[0])
            && n.contains_key(p[0]) {
            part_at(m[p[0]], n[p[0]], p.drop_first())
        } else {
            p.len() == 1 && (m.contains_key(p[0]) || n.contains_key(p[0]))
        },
        _ => p.len() == 0 && s != t,
    }
}

/// All paths at which two documents part.
pub open spec fn partings<N>(s: Tree<N>, t: Tree<N>) -> Set<Path> {
    Set::new(|p: Path| part_at(s, t, p))
}

/// Documents part at the same paths whichever comes first.
pub proof fn lemma_part_symmetric<N>(s: Tree<N>, t: Tree<N>, p: Path)
    ensures
        part_at(s, t, p) == part_at(t, s, p),
    decreases p.len(),
{
    if let (Tree::Object(m), Tree::Object(n)) = (s, t) {
        if p.len() > 0 && m.contains_key(p[0]) && n.contains_key(p[0]) {
            lemma_part_symmetric(m[p[0]], n[p[0]], p.drop_first());
        }
    }
}

/// Where two documents part, they hold different things.
pub proof fn lemma_part_differs<N>(s: Tree<N>, t: Tree<N>, p: Path)
    requires
        part_at(s, t, p),
    ensures
        lookup(s, p) != lookup(t, p),
    decreases p.len(),
{
    if let (Tree::Object(m), Tree::Object(n)) = (s, t) {
        if m.contains_key(p[0]) && n.contains_key(p[0]) {
            lemma_part_differs(m[p[0]], n[p[0]], p.drop_first());
        } else {
            reveal_with_fuel(lookup, 2);
        }
    }
}

/// Between objects, every parting path has a parent on both sides.
pub proof fn lemma_part_has_parent<N>(s: Tree<N>, t: Tree<N>, p: Path)
    requires
        part_at(s, t, p),
        s is Object,
        t is Object,
    ensures
        p.len() > 0,
        has_parent(s, p),
        has_parent(t, p),
    decreases p.len(),
{
    let m = s->Object_0;
    let n = t->Object_0;
    if p.len() > 1 {
        lemma_part_has_parent(m[p[0]], n[p[0]], p.drop_first());
    }
}

/// Documents do not part twice along one path.
pub proof fn lemma_parts_separate<N>(s: Tree<N>, t: Tree<N>, p: Path, q: Path)
    requires
        part_at(s, t, p),
        part_at(s, t, q),
        nested(p, q),
    ensures
        p == q,
    decreases p.len(),
{
    if let (Tree::Object(m), Tree::Object(n)) = (s, t) {
        let p1 = p.drop_first();
        let q1 = q.drop_first();
        if p.is_prefix_of(q) {
            assert(p =~= q.subrange(0, p.len() as int));
            assert(p[0] == q.subrange(0, p.len() as int)[0]);
            assert(p1 =~= q1.subrange(0, p1.len() as int));
        } else {
            assert(q =~= p.subrange(0, q.len() as int));
            assert(q[0] == p.subrange(0, q.len() as int)[0]);
            assert(q1 =~= p1.subrange(0, q1.len() as int));
        }
        if m.contains_key(p[0]) && n.contains_key(p[0]) {
            lemma_parts_separate(m[p[0]], n[p[0]], p1, q1);
        }
        assert(p1 =~= q1);
        assert(p =~= seq![p[0]] + p1);
        assert(q =~= seq![q[0]] + q1);
    } else {
        assert(p =~= q);
    }
}

/// Documents agree outside the paths at which they part.
pub proof fn lemma_agree_outside_partings<N>(s: Tree<N>, t: Tree<N>)
    ensures
        agree(s, t, partings(s, t)),
    decreases s,
{
    if let (Tree::Object(m), Tree::Object(n)) = (s, t) {
        let holes = partings(s, t);
        assert forall|k: Seq<char>|
            #![trigger m.contains_key(k)]
            #![trigger n.contains_key(k)]
            #![trigger below(holes, k)]
            below(holes, k).contains(Seq::empty()) || (m.contains_key(k) == n.contains_key(k) && (
            m.contains_key(k) ==> agree(m[k], n[k], below(holes, k)))) by {
            let step = seq![k] + Seq::<Seq<char>>::empty();
            assert(step[0] == k && step.len() == 1);
            if m.contains_key(k) && n.contains_key(k) {
                lemma_agree_outside_partings(m[k], n[k]);
                assert(below(holes, k) =~= partings(m[k], n[k])) by {
                    assert forall|q: Path| #[trigger] below(holes, k).contains(q) == partings(
                        m[k],
                        n[k],
                    ).contains(q) by {
                        assert((seq![k] + q).drop_first() =~= q);
                        assert((seq![k] + q)[0] == k);
                    }
                }
            } else if m.contains_key(k) || n.contains_key(k) {
                assert(holes.contains(step));
            }
        }
    } else if s != t {
        assert(partings(s, t).contains(Seq::empty()));
    }
}

/// Writing what one object has at every path where it parts from another turns
/// the other into it.
pub proof fn lemma_write_partings<N>(
    s: Tree<N>,
    t: Tree<N>,
    writes: Seq<(Path, Option<Tree<N>>)>,
)
    requires
        s is Object,
        t is Object,
        paths_of(writes) == partings(s, t),
        forall|i: int, j: int|
            0 <= i < writes.len() && 0 <= j < writes.len() && i != j ==> (#[trigger] writes[i]).0
                != (#[trigger] writes[j]).0,
        forall|i: int|
            0 <= i < writes.len() ==> (#[trigger] writes[i]).1 == lookup(t, writes[i].0),
    ensures
        proper(writes),
        separate(writes),
        run(s, writes) == Some(t),
        forall|i: int| 0 <= i < writes.len() ==> has_parent(s, (#[trigger] writes[i]).0),
{
    assert forall|i: int| 0 <= i < writes.len() implies (#[trigger] writes[i]).0.len() > 0
        && has_parent(s, writes[i].0) && part_at(s, t, writes[i].0) by {
        assert(paths_of(writes).contains(writes[i].0));
        lemma_part_has_parent(s, t, writes[i].0);
    }
    assert forall|i: int, j: int|
        0 <= i < writes.len() && 0 <= j < writes.len() && i != j implies !nested(
        (#[trigger] writes[i]).0,
        (#[trigger] writes[j]).0,
    ) by {
        if nested(writes[i].0, writes[j].0) {
            lemma_parts_separate(s, t, writes[i].0, writes[j].0);
        }
    }
    lemma_run_separate(s, writes);
    lemma_agree_outside_partings(s, t);
    lemma_run_fills(s, t, writes);
}

/// A path leads to the place that its first part leads to, and from there on
/// along the rest; one key leads to the member with that key.
pub proof fn law_lookup<N>(t: Tree<N>, p: Path, q: Path, k: Seq<char>)
    ensures
        lookup(t, Seq::empty()) == Some(t),
        lookup(t, p + q) == (match lookup(t, p) {
            Some(x) => lookup(x, q),
            None => None,
        }),
        lookup(t, seq![k]) == (match t {
            Tree::Object(m) => if m.contains_key(k) {
                Some(m[k])
            } else {
                None
            },
            _ => None,
        }),
    decreases p.len(),
{
    let one = seq![k];
    assert(one.drop_first() =~= Seq::empty());
    reveal_with_fuel(lookup, 2);
    if p.len() == 0 {
        assert(p + q =~= q);
    } else {
        assert((p + q).drop_first() =~= p.drop_first() + q);
        if let Tree::Object(m) = t {
            if m.contains_key(p[0]) {
                law_lookup(m[p[0]], p.drop_first(), q, k);
            }
        }
    }
}

/// A place has a parent exactly if every shorter path to it, but the empty one,
/// leads to an object.
pub proof fn law_has_parent<N>(t: Tree<N>, p: Path)
    ensures
        has_parent(t, p) <==> forall|i: int|
            1 <= i < p.len() ==> (lookup(t, #[trigger] p.take(i)) matches Some(Tree::Object(_))),
    decreases p.len(),
{
    if p.len() > 1 {
        let k = p[0];
        let rest = p.drop_first();
        let one = p.take(1);
        assert(one =~= seq![k]);
        law_lookup(t, Seq::empty(), Seq::empty(), k);
        if let Tree::Object(m) = t {
            if m.contains_key(k) {
                law_has_parent(m[k], rest);
                assert forall|i: int| 1 <= i < p.len() implies lookup(t, #[trigger] p.take(i))
                    == lookup(m[k], rest.take(i - 1)) by {
                    assert(p.take(i).drop_first() =~= rest.take(i - 1));
                }
                assert(rest.take(0) =~= Seq::empty());
                if has_parent(t, p) {
                    assert forall|i: int| 1 <= i < p.len() implies (lookup(
                        t,
                        #[trigger] p.take(i),
                    ) matches Some(Tree::Object(_))) by {
                        if i > 1 {
                            assert(lookup(m[k], rest.take(i - 1)) matches Some(Tree::Object(_)));
                        }
                    }
                }
                if forall|i: int|
                    1 <= i < p.len() ==> (lookup(t, #[trigger] p.take(i)) matches Some(
                        Tree::Object(_),
                    )) {
                    assert(lookup(t, p.take(1)) matches Some(Tree::Object(_)));
                    assert forall|i: int| 1 <= i < rest.len() implies (lookup(
                        m[k],
                        #[trigger] rest.take(i),
                    ) matches Some(Tree::Object(_))) by {
                        assert(lookup(t, p.take(i + 1)) matches Some(Tree::Object(_)));
                    }
                }
            } else {
                assert(lookup(t, p.take(1)) is None);
            }
        } else {
            assert(lookup(t, p.take(1)) is None);
        }
    }
}

/// Taking away what is not there changes nothing.
pub proof fn law_erase_absent<N>(t: Tree<N>, p: Path)
    requires
        p.len() > 0,
        lookup(t, p) is None,
    ensures
        put(t, p, None) == Some(t),
    decreases p.len(),
{
    if let Tree::Object(m) = t {
        if p.len() == 1 {
            assert(p.drop_first() =~= Seq::empty());
            reveal_with_fuel(lookup, 2);
            assert(m.remove(p[0]) =~= m);
        } else if m.contains_key(p[0]) && m[p[0]] is Object {
            law_erase_absent(m[p[0]], p.drop_first());
            assert(m.insert(p[0], m[p[0]]) =~= m);
        }
    }
}

/// Writes are made one after another, each on what the ones before it left.
pub proof fn law_run<N>(
    t: Tree<N>,
    writes: Seq<(Path, Option<Tree<N>>)>,
    w: (Path, Option<Tree<N>>),
)
    ensures
        run(t, Seq::empty()) == Some(t),
        run(t, writes.push(w)) == (match run(t, writes) {
            Some(r) => put(r, w.0, w.1),
            None => None,
        }),
    decreases writes.len(),
{
    let more = writes.push(w);
    if writes.len() == 0 {
        assert(more.drop_first() =~= Seq::empty());
        reveal_with_fuel(run, 2);
    } else {
        assert(more.drop_first() =~= writes.drop_first().push(w));
        if let Some(r) = put(t, writes[0].0, writes[0].1) {
            law_run(r, writes.drop_first(), w);
        }
    }
}

/// The write that is lost is the first that cannot be made after the others.
pub proof fn law_first_lost<N>(t: Tree<N>, writes: Seq<(Path, Option<Tree<N>>)>, n: nat)
    ensures
        first_lost(t, writes) == Some(n) <==> n < writes.len() && run(t, writes.take(n as int)) is Some
            && run(t, writes.take(n as int + 1)) is None,
    decreases writes.len(),
{
    if writes.len() > 0 {
        let w = writes[0];
        assert(writes.take(0) =~= Seq::empty());
        let one = writes.take(1);
        assert(one.drop_first() =~= Seq::empty());
        reveal_with_fuel(run, 2);
        if let Some(r) = put(t, w.0, w.1) {
            let rest = writes.drop_first();
            if n > 0 {
                law_first_lost(r, rest, (n - 1) as nat);
                if n < writes.len() {
                    assert(writes.take(n as int).drop_first() =~= rest.take(n - 1));
                    assert(writes.take(n as int + 1).drop_first() =~= rest.take(n as int));
                }
            }
        } else if 0 < n < writes.len() {
            assert(writes.take(n as int)[0] == w);
        }
    }
}

/// Two trees part exactly at the places to which objects lead in both, and where
/// they differ without both being objects.
pub proof fn law_part_at<N>(s: Tree<N>, t: Tree<N>, p: Path)
    ensures
        part_at(s, t, p) <==> {
            &&& forall|i: int|
                0 <= i < p.len() ==> (lookup(s, #[trigger] p.take(i)) matches Some(Tree::Object(_)))
                    && (lookup(t, p.take(i)) matches Some(Tree::Object(_)))
            &&& lookup(s, p) != lookup(t, p)
            &&& !((lookup(s, p) matches Some(Tree::Object(_))) && (lookup(t, p) matches Some(
                Tree::Object(_),
            )))
        },
    decreases p.len(),
{
    if p.len() > 0 {
        let k = p[0];
        let rest = p.drop_first();
        assert(p.take(0) =~= Seq::empty());
        match (s, t) {
            (Tree::Object(m), Tree::Object(n)) => {
                if m.contains_key(k) && n.contains_key(k) {
                    law_part_at(m[k], n[k], rest);
                    assert forall|i: int| 1 <= i < p.len() implies lookup(s, #[trigger] p.take(i))
                        == lookup(m[k], rest.take(i - 1)) && lookup(t, p.take(i)) == lookup(
                        n[k],
                        rest.take(i - 1),
                    ) by {
                        assert(p.take(i).drop_first() =~= rest.take(i - 1));
                    }
                    if part_at(s, t, p) {
                        assert forall|i: int| 0 <= i < p.len() implies (lookup(
                            s,
                            #[trigger] p.take(i),
                        ) matches Some(Tree::Object(_))) && (lookup(t, p.take(i)) matches Some(
                            Tree::Object(_),
                        )) by {
                            if i > 0 {
                                assert(lookup(m[k], rest.take(i - 1)) matches Some(
                                    Tree::Object(_),
                                ));
                            }
                        }
                    }
                    if forall|i: int|
                        0 <= i < p.len() ==> (lookup(s, #[trigger] p.take(i)) matches Some(
                            Tree::Object(_),
                        )) && (lookup(t, p.take(i)) matches Some(Tree::Object(_))) {
                        assert forall|i: int| 0 <= i < rest.len() implies (lookup(
                            m[k],
                            #[trigger] rest.take(i),
                        ) matches Some(Tree::Object(_))) && (lookup(n[k], rest.take(i)) matches Some(
                            Tree::Object(_),
                        )) by {
                            assert(lookup(s, p.take(i + 1)) matches Some(Tree::Object(_)));
                        }
                    }
                } else {
                    if p.len() == 1 {
                        assert(rest =~= Seq::empty());
                        reveal_with_fuel(lookup, 2);
                    } else {
                        assert(p.take(1) =~= seq![k]);
                        law_lookup(s, Seq::empty(), Seq::empty(), k);
                        law_lookup(t, Seq::empty(), Seq::empty(), k);
                        assert(lookup(s, p.take(1)) is None || lookup(t, p.take(1)) is None);
                    }
                }
            },
            _ => {
                assert(lookup(s, p.take(0)) == Some(s) && lookup(t, p.take(0)) == Some(t));
            },
        }
    } else {
        assert(p =~= Seq::empty());
    }
}

/// Where there is no object at all, nothing can be put below its members, and
/// taking away or putting a member changes nothing.
pub proof fn law_put_on_no_object<N>(t: Tree<N>, p: Path, x: Option<Tree<N>>)
    requires
        !(t is Object),
        p.len() > 0,
    ensures
        x is None || p.len() == 1 ==> put(t, p, x) == Some(t),
        x is Some && p.len() > 1 ==> put(t, p, x) is None,
{
}

} // verus!
