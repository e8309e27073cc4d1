//! Texts: their order, and taking them apart into characters.
use vstd::prelude::*;

verus! {

/// `String::push` appends one character to the end of the string.
pub assume_specification[ std::string::String::push ](s: &mut std::string::String, c: char)
    ensures
        final(s)@ == old(s)@.push(c),
;

/// The outcome of comparing two texts lexicographically.
#[derive(Clone, Copy, Debug, PartialEq, Eq, Structural)]
pub enum Rank {
    Before,
    Same,
    After,
}

/// Lexicographic order by Unicode scalar value: `a` comes strictly before `b`.
pub open spec fn precedes(a: Seq<char>, b: Seq<char>) -> bool
    decreases a.len(),
{
    if b.len() == 0 {
        false
    } else if a.len() == 0 {
        true
    } else if a[0] != b[0] {
        (a[0] as int) < (b[0] as int)
    } else {
        precedes(a.drop_first(), b.drop_first())
    }
}

/// No text comes before itself.
pub proof fn lemma_precedes_irreflexive(a: Seq<char>)
    ensures
        !precedes(a, a),
    decreases a.len(),
{
    if a.len() > 0 {
        lemma_precedes_irreflexive(a.drop_first());
    }
}

/// The order is transitive.
pub proof fn lemma_precedes_transitive(a: Seq<char>, b: Seq<char>, c: Seq<char>)
    requires
        precedes(a, b),
        precedes(b, c),
    ensures
        precedes(a, c),
    decreases a.len(),
{
    if a.len() > 0 && b.len() > 0 && c.len() > 0 && a[0] == b[0] && b[0] == c[0] {
        lemma_precedes_transitive(a.drop_first(), b.drop_first(), c.drop_first());
    }
}

/// Any two texts are either equal or ordered one way.
pub proof fn lemma_precedes_total(a: Seq<char>, b: Seq<char>)
    ensures
        a == b || precedes(a, b) || precedes(b, a),
    decreases a.len(),
{
    if a.len() > 0 && b.len() > 0 {
        if a[0] == b[0] {
            lemma_precedes_total(a.drop_first(), b.drop_first());
            if a.drop_first() == b.drop_first() {
                assert(a =~= seq![a[0]] + a.drop_first());
                assert(b =~= seq![b[0]] + b.drop_first());
            }
        }
    } else if a.len() == 0 && b.len() == 0 {
        assert(a =~= b);
    }
}

/// At most one of the two directions holds.
pub proof fn lemma_precedes_asymmetric(a: Seq<char>, b: Seq<char>)
    requires
        precedes(a, b),
    ensures
        !precedes(b, a),
        a != b,
{
    if precedes(b, a) {
        lemma_precedes_transitive(a, b, a);
    }
    lemma_precedes_irreflexive(a);
}

/// What `rank` reports for a pair of texts.
pub open spec fn rank_of(a: Seq<char>, b: Seq<char>) -> Rank {
    if a == b {
        Rank::Same
    } else if precedes(a, b) {
        Rank::Before
    } else {
        Rank::After
    }
}

proof fn lemma_rank_step(a: Seq<char>, b: Seq<char>)
    requires
        a.len() > 0,
        b.len() > 0,
        a[0] == b[0],
    ensures
        rank_of(a, b) == rank_of(a.drop_first(), b.drop_first()),
{
    if a.drop_first() == b.drop_first() {
        assert(a =~= seq![a[0]] + a.drop_first());
        assert(b =~= seq![b[0]] + b.drop_first());
    }
}

/// Compares two texts lexicographically.
pub fn rank(a: &str, b: &str) -> (r: Rank)
    ensures
        r == rank_of(a@, b@),
{
    let mut xs = a.chars();
    let mut ys = b.chars();
    loop
        invariant
            rank_of(a@, b@) == rank_of(vstd::std_specs::iter::IteratorSpec::remaining(&xs), vstd::std_specs::iter::IteratorSpec::remaining(&ys)),
            vstd::std_specs::iter::IteratorSpec::decrease(&xs) is Some,
            vstd::std_specs::iter::IteratorSpec::obeys_prophetic_iter_laws(&xs),
            vstd::std_specs::iter::IteratorSpec::obeys_prophetic_iter_laws(&ys),
        decreases vstd::std_specs::iter::IteratorSpec::decrease(&xs)->0,
    {
        let ghost left = vstd::std_specs::iter::IteratorSpec::remaining(&xs);
        let ghost right = vstd::std_specs::iter::IteratorSpec::remaining(&ys);
        let x = xs.next();
        let y = ys.next();
        match (x, y) {
            (Some(c), Some(d)) => {
                if c < d {
                    return Rank::Before;
                }
                if d < c {
                    return Rank::After;
                }
                proof {
                    lemma_rank_step(left, right);
                }
            },
            (None, None) => {
                assert(left =~= right);
                return Rank::Same;
            },
            (None, Some(_)) => {
                return Rank::Before;
            },
            (Some(_), None) => {
                return Rank::After;
            },
        }
    }
}

/// Whether two texts are the same.
pub fn text_eq(a: &str, b: &str) -> (r: bool)
    ensures
        r == (a@ == b@),
{
    matches!(rank(a, b), Rank::Same)
}

/// Whether a text has no characters.
pub fn is_empty(s: &str) -> (r: bool)
    ensures
        r == (s@.len() == 0),
{
    proof {
        reveal_strlit("");
        if s@.len() == 0 {
            assert(s@ =~= ""@);
        }
    }
    text_eq(s, "")
}

/// The characters of a text.
pub fn chars_of(s: &str) -> (r: Vec<char>)
    ensures
        r@ == s@,
{
    let mut r: Vec<char> = Vec::new();
    for c in it: s.chars()
        invariant
            r@ == s@.take(it.index() as int),
            it.seq() == s@,
    {
        r.push(c);
    }
    r
}

/// The text made of the given characters.
pub fn string_of(chars: &[char]) -> (r: String)
    ensures
        r@ == chars@,
{
    let mut r = String::new();
    for i in 0..chars.len()
        invariant
            r@ == chars@.take(i as int),
    {
        r.push(chars[i]);
        assert(chars@.take(i as int).push(chars@[i as int]) =~= chars@.take(i + 1));
    }
    assert(chars@.take(chars@.len() as int) =~= chars@);
    r
}

/// The index of the first separator, or the length where there is none.
pub open spec fn cut(s: Seq<char>, sep: char) -> int
    decreases s.len(),
{
    if s.len() == 0 || s[0] == sep {
        0
    } else {
        1 + cut(s.drop_first(), sep)
    }
}

/// The first separator stands where it is cut, and none before.
pub proof fn lemma_cut(s: Seq<char>, sep: char)
    ensures
        0 <= cut(s, sep) <= s.len(),
        cut(s, sep) < s.len() ==> s[cut(s, sep)] == sep,
        forall|i: int| 0 <= i < cut(s, sep) ==> s[i] != sep,
    decreases s.len(),
{
    if s.len() > 0 && s[0] != sep {
        let t = s.drop_first();
        lemma_cut(t, sep);
        assert forall|i: int| 0 <= i < cut(s, sep) implies s[i] != sep by {
            if i > 0 {
                assert(s[i] == t[i - 1]);
            }
        }
        if cut(s, sep) < s.len() {
            assert(s[cut(s, sep)] == t[cut(t, sep)]);
        }
    }
}

/// A text is cut where its first separator stands.
pub proof fn lemma_cut_at(s: Seq<char>, sep: char, n: int)
    requires
        0 <= n <= s.len(),
        forall|i: int| 0 <= i < n ==> s[i] != sep,
        n < s.len() ==> s[n] == sep,
    ensures
        cut(s, sep) == n,
{
    lemma_cut(s, sep);
}

/// The parts of a text between separators; there is always at least one.
pub open spec fn split(s: Seq<char>, sep: char) -> Seq<Seq<char>>
    decreases s.len(),
{
    proof {
        lemma_cut(s, sep);
    }
    let n = cut(s, sep);
    if n == s.len() {
        seq![s]
    } else {
        seq![s.take(n)] + split(s.skip(n + 1), sep)
    }
}

/// Splits a text at a separator.
pub fn split_at(s: &Vec<char>, sep: char) -> (r: Vec<Vec<char>>)
    ensures
        r@.len() == split(s@, sep).len(),
        forall|i: int| 0 <= i < r@.len() ==> (#[trigger] r@[i])@ == split(s@, sep)[i],
{
    let mut r: Vec<Vec<char>> = Vec::new();
    let mut start: usize = 0;
    let ghost whole = split(s@, sep);
    assert(s@.skip(0) =~= s@);
    loop
        invariant
            start <= s@.len(),
            whole == split(s@, sep),
            r@.len() + split(s@.skip(start as int), sep).len() == whole.len(),
            forall|i: int| 0 <= i < r@.len() ==> (#[trigger] r@[i])@ == whole[i],
            forall|i: int|
                0 <= i < split(s@.skip(start as int), sep).len() ==> #[trigger] split(
                    s@.skip(start as int),
                    sep,
                )[i] == whole[r@.len() + i],
        decreases s@.len() - start,
    {
        let ghost here = s@.skip(start as int);
        let ghost parts = split(here, sep);
        let mut end: usize = start;
        while end < s.len() && s[end] != sep
            invariant
                start <= end <= s@.len(),
                forall|i: int| start <= i < end ==> s@[i] != sep,
            decreases s@.len() - end,
        {
            end = end + 1;
        }
        proof {
            lemma_cut_at(here, sep, end - start);
        }
        let mut part: Vec<char> = Vec::new();
        part.extend_from_slice(vstd::slice::slice_subrange(s.as_slice(), start, end));
        proof {
            assert(part@ =~= here.take(end - start));
            if end == s@.len() {
                assert(here.take(end - start) =~= here);
            }
            assert(parts[0] == part@);
            assert(parts[0] == whole[r@.len() as int]);
        }
        let ghost n = r@.len();
        r.push(part);
        if end == s.len() {
            return r;
        }
        proof {
            let next = s@.skip(end + 1);
            assert(here.skip(end - start + 1) =~= next);
            assert forall|i: int| 0 <= i < split(next, sep).len() implies #[trigger] split(next, sep)[i]
                == whole[n + 1 + i] by {
                assert(parts[i + 1] == split(next, sep)[i]);
            }
        }
        start = end + 1;
    }
}

/// Texts are ordered as in a dictionary: where they first differ, the smaller
/// character decides, and a text comes before its continuations.
pub proof fn law_dictionary_order(a: Seq<char>, b: Seq<char>)
    ensures
        precedes(a, b) <==> exists|i: int|
            0 <= i < b.len() && i <= a.len() && #[trigger] a.take(i) == b.take(i) && (i == a.len() || (
            a[i] as int) < (b[i] as int)),
    decreases a.len(),
{
    if a.len() > 0 && b.len() > 0 {
        let (x, y) = (a.drop_first(), b.drop_first());
        law_dictionary_order(x, y);
        if a[0] == b[0] {
            if precedes(a, b) {
                let i = choose|i: int|
                    0 <= i < y.len() && i <= x.len() && #[trigger] x.take(i) == y.take(i) && (i
                        == x.len() || (x[i] as int) < (y[i] as int));
                assert(a.take(i + 1) =~= seq![a[0]] + x.take(i));
                assert(b.take(i + 1) =~= seq![b[0]] + y.take(i));
                assert(a.take(i + 1) == b.take(i + 1));
            }
            if exists|i: int|
                0 <= i < b.len() && i <= a.len() && #[trigger] a.take(i) == b.take(i) && (i
                    == a.len() || (a[i] as int) < (b[i] as int)) {
                let i = choose|i: int|
                    0 <= i < b.len() && i <= a.len() && #[trigger] a.take(i) == b.take(i) && (i
                        == a.len() || (a[i] as int) < (b[i] as int));
                assert(i > 0);
                assert(x.take(i - 1) =~= a.take(i).drop_first());
                assert(y.take(i - 1) =~= b.take(i).drop_first());
                assert(x.take(i - 1) == y.take(i - 1));
            }
        } else {
            if precedes(a, b) {
                assert(a.take(0) =~= b.take(0));
            }
            if exists|i: int|
                0 <= i < b.len() && i <= a.len() && #[trigger] a.take(i) == b.take(i) && (i
                    == a.len() || (a[i] as int) < (b[i] as int)) {
                let i = choose|i: int|
                    0 <= i < b.len() && i <= a.len() && #[trigger] a.take(i) == b.take(i) && (i
                        == a.len() || (a[i] as int) < (b[i] as int));
                if i > 0 {
                    assert(a.take(i)[0] == b.take(i)[0]);
                }
            }
        }
    } else if b.len() > 0 {
        assert(a.take(0) =~= b.take(0));
    }
}

/// Comparing two texts tells whether they are equal, or which comes first.
pub proof fn law_rank(a: Seq<char>, b: Seq<char>)
    ensures
        rank_of(a, b) == Rank::Same <==> a == b,
        rank_of(a, b) == Rank::Before <==> precedes(a, b),
        rank_of(a, b) == Rank::After <==> precedes(b, a),
{
    lemma_precedes_total(a, b);
    lemma_precedes_irreflexive(a);
    if precedes(a, b) {
        lemma_precedes_asymmetric(a, b);
    }
    if precedes(b, a) {
        lemma_precedes_asymmetric(b, a);
    }
}

/// A text without the separator is one part; a part before a separator stands
/// before the parts of what follows it.
pub proof fn law_split(s: Seq<char>, rest: Seq<char>, sep: char)
    requires
        forall|i: int| 0 <= i < s.len() ==> s[i] != sep,
    ensures
        split(s, sep) == seq![s],
        split(s + seq![sep] + rest, sep) == seq![s] + split(rest, sep),
{
    lemma_cut_at(s, sep, s.len() as int);
    let t = s + seq![sep] + rest;
    let n = s.len() as int;
    assert forall|i: int| 0 <= i < n implies t[i] != sep by {
        assert(t[i] == s[i]);
    }
    lemma_cut_at(t, sep, n);
    assert(t.take(n) =~= s);
    assert(t.skip(n + 1) =~= rest);
}

} // verus!
