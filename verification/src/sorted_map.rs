//! Maps from text to values, kept in lexicographic order of their keys.
use vstd::prelude::*;

use crate::text;
use crate::text::{rank, Rank};

verus! {

/// A map whose entries stand in ascending order of their keys.
#[derive(Debug)]
pub struct SortedMap<V> {
    pub entries: Vec<(String, V)>,
}

/// Whether every text comes before all that follow it.
pub open spec fn ascending(s: Seq<Seq<char>>) -> bool {
    forall|i: int, j: int|
        0 <= i < j < s.len() ==> text::precedes(#[trigger] s[i], #[trigger] s[j])
}

/// The keys of a run of entries.
pub open spec fn keys_of<V>(entries: Seq<(String, V)>) -> Seq<Seq<char>> {
    Seq::new(entries.len(), |i: int| entries[i].0@)
}

/// The index at which a key stands.
pub open spec fn position<V>(entries: Seq<(String, V)>, k: Seq<char>) -> int {
    choose|i: int| 0 <= i < entries.len() && #[trigger] keys_of(entries)[i] == k
}

/// The map that a run of entries stands for.
pub open spec fn map_of<V>(entries: Seq<(String, V)>) -> Map<Seq<char>, V> {
    Map::new(
        |k: Seq<char>| keys_of(entries).contains(k),
        |k: Seq<char>| entries[position(entries, k)].1,
    )
}

/// Ascending texts are all different.
pub proof fn lemma_ascending_distinct(s: Seq<Seq<char>>, i: int, j: int)
    requires
        ascending(s),
        0 <= i < s.len(),
        0 <= j < s.len(),
        s[i] == s[j],
    ensures
        i == j,
{
    text::lemma_precedes_irreflexive(s[i]);
    if i < j {
        assert(text::precedes(s[i], s[j]));
    } else if j < i {
        assert(text::precedes(s[j], s[i]));
    }
}

/// A longer front part of a list holds one more text.
pub proof fn lemma_taken_key(ks: Seq<Seq<char>>, i: int, k: Seq<char>)
    requires
        0 <= i < ks.len(),
    ensures
        ks.take(i + 1).contains(k) <==> ks.take(i).contains(k) || k == ks[i],
{
    let a = ks.take(i);
    let b = ks.take(i + 1);
    if b.contains(k) {
        let j = choose|j: int| 0 <= j < b.len() && b[j] == k;
        if j < i {
            assert(a[j] == k);
        }
    }
    if a.contains(k) {
        let j = choose|j: int| 0 <= j < a.len() && a[j] == k;
        assert(b[j] == k);
    }
    if k == ks[i] {
        assert(b[i] == k);
    }
}

/// There is only one way to list a set of texts in ascending order.
pub proof fn lemma_ascending_unique(s: Seq<Seq<char>>, t: Seq<Seq<char>>)
    requires
        ascending(s),
        ascending(t),
        forall|k: Seq<char>| s.contains(k) == t.contains(k),
    ensures
        s == t,
    decreases s.len(),
{
    if s.len() == 0 {
        if t.len() > 0 {
            assert(t.contains(t[0]));
            assert(s.contains(t[0]));
        }
        assert(s =~= t);
    } else {
        let x = s.last();
        assert(s.contains(s[s.len() - 1]));
        assert(t.contains(x));
        let i = choose|i: int| 0 <= i < t.len() && t[i] == x;
        let y = t.last();
        assert(t.contains(t[t.len() - 1]));
        assert(s.contains(y));
        let j = choose|j: int| 0 <= j < s.len() && s[j] == y;
        if i < t.len() - 1 {
            assert(text::precedes(t[i], t[t.len() - 1]));
            if j < s.len() - 1 {
                assert(text::precedes(s[j], s[s.len() - 1]));
                text::lemma_precedes_asymmetric(x, y);
            } else {
                text::lemma_precedes_irreflexive(x);
            }
        }
        assert(x == y);
        let s1 = s.drop_last();
        let t1 = t.drop_last();
        assert forall|k: Seq<char>| s1.contains(k) == t1.contains(k) by {
            if s1.contains(k) {
                let a = choose|a: int| 0 <= a < s1.len() && s1[a] == k;
                assert(s[a] == k);
                assert(s.contains(k) && t.contains(k));
                let b = choose|b: int| 0 <= b < t.len() && t[b] == k;
                if b == t.len() - 1 {
                    lemma_ascending_distinct(s, a, s.len() - 1);
                }
                assert(t1[b] == k);
            }
            if t1.contains(k) {
                let a = choose|a: int| 0 <= a < t1.len() && t1[a] == k;
                assert(t[a] == k);
                assert(t.contains(k) && s.contains(k));
                let b = choose|b: int| 0 <= b < s.len() && s[b] == k;
                if b == s.len() - 1 {
                    lemma_ascending_distinct(t, a, t.len() - 1);
                }
                assert(s1[b] == k);
            }
        }
        assert(ascending(s1)) by {
            assert forall|a: int, b: int| 0 <= a < b < s1.len() implies text::precedes(
                #[trigger] s1[a],
                #[trigger] s1[b],
            ) by {
                assert(text::precedes(s[a], s[b]));
            }
        }
        assert(ascending(t1)) by {
            assert forall|a: int, b: int| 0 <= a < b < t1.len() implies text::precedes(
                #[trigger] t1[a],
                #[trigger] t1[b],
            ) by {
                assert(text::precedes(t[a], t[b]));
            }
        }
        lemma_ascending_unique(s1, t1);
        assert(s =~= s1.push(x));
        assert(t =~= t1.push(x));
    }
}

/// The entry at an index is the one that its key leads to.
pub proof fn lemma_map_of_entry<V>(entries: Seq<(String, V)>, i: int)
    requires
        ascending(keys_of(entries)),
        0 <= i < entries.len(),
    ensures
        map_of(entries).contains_key(entries[i].0@),
        map_of(entries)[entries[i].0@] == entries[i].1,
        position(entries, entries[i].0@) == i,
{
    let k = entries[i].0@;
    assert(keys_of(entries)[i] == k);
    lemma_ascending_distinct(keys_of(entries), position(entries, k), i);
}

/// A key of the map leads to an entry with that key.
pub proof fn lemma_map_of_key<V>(entries: Seq<(String, V)>, k: Seq<char>)
    requires
        map_of(entries).contains_key(k),
    ensures
        0 <= position(entries, k) < entries.len(),
        entries[position(entries, k)].0@ == k,
        map_of(entries)[k] == entries[position(entries, k)].1,
{
    let i = choose|i: int| 0 <= i < keys_of(entries).len() && keys_of(entries)[i] == k;
    assert(keys_of(entries)[i] == k);
}

/// Where no key before an index reaches `k` and no key from it on comes before
/// `k`, the key stands at that index or nowhere.
proof fn lemma_absent<V>(entries: Seq<(String, V)>, k: Seq<char>, i: int)
    requires
        0 <= i <= entries.len(),
        forall|j: int| 0 <= j < i ==> text::precedes((#[trigger] entries[j]).0@, k),
        forall|j: int| i <= j < entries.len() ==> text::precedes(k, (#[trigger] entries[j]).0@),
    ensures
        !map_of(entries).contains_key(k),
{
    if keys_of(entries).contains(k) {
        let j = choose|j: int| 0 <= j < keys_of(entries).len() && keys_of(entries)[j] == k;
        assert(entries[j].0@ == k);
        text::lemma_precedes_irreflexive(k);
    }
}

impl<V> View for SortedMap<V> {
    type V = Map<Seq<char>, V>;

    open spec fn view(&self) -> Map<Seq<char>, V> {
        map_of(self.entries@)
    }
}

impl<V> SortedMap<V> {
    /// The keys in the order of the entries.
    pub open spec fn keys(&self) -> Seq<Seq<char>> {
        keys_of(self.entries@)
    }

    /// The entries stand in ascending order of their keys.
    pub open spec fn wf(&self) -> bool {
        ascending(self.keys())
    }

    /// An empty map.
    pub fn new() -> (r: Self)
        ensures
            r.wf(),
            r@ == Map::<Seq<char>, V>::empty(),
            r.entries@.len() == 0,
    {
        let r = SortedMap { entries: Vec::new() };
        assert(r@ =~= Map::<Seq<char>, V>::empty());
        r
    }

    /// The number of entries.
    pub fn len(&self) -> (n: usize)
        ensures
            n == self.entries@.len(),
    {
        self.entries.len()
    }

    /// Where a key stands, or where it would have to be inserted.
    pub fn search(&self, k: &str) -> (r: (bool, usize))
        requires
            self.wf(),
        ensures
            r.0 == self@.contains_key(k@),
            r.1 <= self.entries@.len(),
            r.0 ==> r.1 < self.entries@.len() && self.entries@[r.1 as int].0@ == k@ && r.1
                == position(self.entries@, k@),
            forall|j: int|
                0 <= j < r.1 ==> text::precedes((#[trigger] self.entries@[j]).0@, k@),
            !r.0 ==> forall|j: int|
                r.1 <= j < self.entries@.len() ==> text::precedes(
                    k@,
                    (#[trigger] self.entries@[j]).0@,
                ),
    {
        let mut lo: usize = 0;
        let mut hi: usize = self.entries.len();
        while lo < hi
            invariant
                self.wf(),
                lo <= hi <= self.entries@.len(),
                forall|j: int|
                    0 <= j < lo ==> text::precedes((#[trigger] self.entries@[j]).0@, k@),
                forall|j: int|
                    hi <= j < self.entries@.len() ==> text::precedes(
                        k@,
                        (#[trigger] self.entries@[j]).0@,
                    ),
            decreases hi - lo,
        {
            let mid: usize = lo + (hi - lo) / 2;
            proof {
                assert(self.keys()[mid as int] == self.entries@[mid as int].0@);
                text::lemma_precedes_total(self.entries@[mid as int].0@, k@);
            }
            match rank(self.entries[mid].0.as_str(), k) {
                Rank::Before => {
                    proof {
                        assert forall|j: int| 0 <= j < mid + 1 implies text::precedes(
                            (#[trigger] self.entries@[j]).0@,
                            k@,
                        ) by {
                            if j < mid {
                                assert(text::precedes(self.keys()[j], self.keys()[mid as int]));
                                text::lemma_precedes_transitive(
                                    self.entries@[j].0@,
                                    self.entries@[mid as int].0@,
                                    k@,
                                );
                            }
                        }
                    }
                    lo = mid + 1;
                },
                Rank::After => {
                    proof {
                        assert forall|j: int| mid <= j < self.entries@.len() implies text::precedes(
                            k@,
                            (#[trigger] self.entries@[j]).0@,
                        ) by {
                            if j > mid {
                                assert(text::precedes(self.keys()[mid as int], self.keys()[j]));
                                text::lemma_precedes_transitive(
                                    k@,
                                    self.entries@[mid as int].0@,
                                    self.entries@[j].0@,
                                );
                            }
                        }
                    }
                    hi = mid;
                },
                Rank::Same => {
                    proof {
                        lemma_map_of_entry(self.entries@, mid as int);
                        assert forall|j: int| 0 <= j < mid implies text::precedes(
                            (#[trigger] self.entries@[j]).0@,
                            k@,
                        ) by {
                            assert(text::precedes(self.keys()[j], self.keys()[mid as int]));
                        }
                    }
                    return (true, mid);
                },
            }
        }
        proof {
            lemma_absent(self.entries@, k@, lo as int);
        }
        (false, lo)
    }

    /// The value at a key.
    pub fn get(&self, k: &str) -> (r: Option<&V>)
        requires
            self.wf(),
        ensures
            match r {
                Some(v) => self@.contains_key(k@) && *v == self@[k@],
                None => !self@.contains_key(k@),
            },
    {
        let (found, i) = self.search(k);
        if found {
            Some(&self.entries[i].1)
        } else {
            None
        }
    }

    /// Whether the map has a key.
    pub fn contains_key(&self, k: &str) -> (r: bool)
        requires
            self.wf(),
        ensures
            r == self@.contains_key(k@),
    {
        self.search(k).0
    }

    /// Puts a value at a key and hands back the one that stood there before.
    pub fn insert(&mut self, k: String, v: V) -> (r: Option<V>)
        requires
            old(self).wf(),
        ensures
            final(self).wf(),
            final(self)@ == old(self)@.insert(k@, v),
            match r {
                Some(x) => old(self)@.contains_key(k@) && x == old(self)@[k@],
                None => !old(self)@.contains_key(k@),
            },
            final(self).entries@.len() == old(self).entries@.len() + (if r is Some {
                0int
            } else {
                1int
            }),
    {
        let (found, i) = self.search(k.as_str());
        let ghost before = self.entries@;
        let ghost key = k@;
        if found {
            let prior = self.entries.remove(i);
            self.entries.insert(i, (k, v));
            proof {
                let after = self.entries@;
                assert(keys_of(after) =~= keys_of(before));
                assert(map_of(after) =~= map_of(before).insert(key, v)) by {
                    lemma_map_of_entry(after, i as int);
                    assert forall|q: Seq<char>| map_of(after).contains_key(q) implies map_of(
                        after,
                    )[q] == map_of(before).insert(key, v)[q] by {
                        lemma_map_of_key(after, q);
                        let j = position(after, q);
                        if q != key {
                            assert(after[j] == before[j]);
                            lemma_map_of_entry(before, j);
                        }
                    }
                }
                assert(prior == before[i as int]);
                lemma_map_of_entry(before, i as int);
            }
            Some(prior.1)
        } else {
            self.entries.insert(i, (k, v));
            proof {
                let after = self.entries@;
                lemma_inserted(before, after, i as int, key, v);
            }
            None
        }
    }

    /// Takes a key out of the map and hands back its value.
    pub fn remove(&mut self, k: &str) -> (r: Option<V>)
        requires
            old(self).wf(),
        ensures
            final(self).wf(),
            final(self)@ == old(self)@.remove(k@),
            match r {
                Some(x) => old(self)@.contains_key(k@) && x == old(self)@[k@],
                None => !old(self)@.contains_key(k@),
            },
    {
        let (found, i) = self.search(k);
        let ghost before = self.entries@;
        if found {
            let prior = self.entries.remove(i);
            proof {
                lemma_removed(before, self.entries@, i as int);
                lemma_map_of_entry(before, i as int);
            }
            Some(prior.1)
        } else {
            assert(self@ =~= old(self)@.remove(k@));
            None
        }
    }
}

proof fn lemma_inserted<V>(
    before: Seq<(String, V)>,
    after: Seq<(String, V)>,
    i: int,
    k: Seq<char>,
    v: V,
)
    requires
        ascending(keys_of(before)),
        0 <= i <= before.len(),
        after.len() == before.len() + 1,
        after[i].0@ == k,
        after[i].1 == v,
        forall|j: int| 0 <= j < i ==> after[j] == before[j],
        forall|j: int| i < j < after.len() ==> after[j] == before[j - 1],
        forall|j: int| 0 <= j < i ==> text::precedes((#[trigger] before[j]).0@, k),
        forall|j: int| i <= j < before.len() ==> text::precedes(k, (#[trigger] before[j]).0@),
    ensures
        ascending(keys_of(after)),
        map_of(after) == map_of(before).insert(k, v),
{
    let a = keys_of(after);
    let b = keys_of(before);
    assert forall|x: int, y: int| 0 <= x < y < a.len() implies text::precedes(
        #[trigger] a[x],
        #[trigger] a[y],
    ) by {
        let bx = if x < i { x } else { x - 1 };
        let by_ = if y < i { y } else { y - 1 };
        if x != i && y != i {
            assert(a[x] == b[bx] && a[y] == b[by_]);
        } else if x == i {
            assert(a[y] == before[y - 1].0@);
        } else {
            assert(a[x] == before[x].0@);
        }
    }
    lemma_map_of_entry(after, i);
    assert forall|q: Seq<char>| map_of(after).contains_key(q) == map_of(before).insert(
        k,
        v,
    ).contains_key(q) by {
        if map_of(after).contains_key(q) && q != k {
            lemma_map_of_key(after, q);
            let j = position(after, q);
            let bj = if j < i { j } else { j - 1 };
            assert(b[bj] == q);
        }
        if map_of(before).contains_key(q) {
            lemma_map_of_key(before, q);
            let j = position(before, q);
            let aj = if j < i { j } else { j + 1 };
            assert(after[aj] == before[j]);
            assert(a[aj] == q);
        }
    }
    assert forall|q: Seq<char>| map_of(after).contains_key(q) implies map_of(after)[q] == map_of(
        before,
    ).insert(k, v)[q] by {
        lemma_map_of_key(after, q);
        let j = position(after, q);
        if q != k {
            let bj = if j < i { j } else { j - 1 };
            assert(after[j] == before[bj]);
            lemma_map_of_entry(before, bj);
        } else {
            lemma_ascending_distinct(a, i, j);
        }
    }
    assert(map_of(after) =~= map_of(before).insert(k, v));
}

proof fn lemma_removed<V>(before: Seq<(String, V)>, after: Seq<(String, V)>, i: int)
    requires
        ascending(keys_of(before)),
        0 <= i < before.len(),
        after == before.remove(i),
    ensures
        ascending(keys_of(after)),
        map_of(after) == map_of(before).remove(before[i].0@),
{
    let a = keys_of(after);
    let b = keys_of(before);
    let k = before[i].0@;
    assert forall|j: int| 0 <= j < a.len() implies #[trigger] a[j] == b[if j < i {
        j
    } else {
        j + 1
    }] by {}
    assert forall|x: int, y: int| 0 <= x < y < a.len() implies text::precedes(
        #[trigger] a[x],
        #[trigger] a[y],
    ) by {
        let bx = if x < i { x } else { x + 1 };
        let by_ = if y < i { y } else { y + 1 };
        assert(text::precedes(b[bx], b[by_]));
    }
    assert forall|q: Seq<char>| map_of(after).contains_key(q) == map_of(before).remove(
        k,
    ).contains_key(q) by {
        if map_of(after).contains_key(q) {
            lemma_map_of_key(after, q);
            let j = position(after, q);
            let bj = if j < i { j } else { j + 1 };
            assert(b[bj] == q);
            if q == k {
                assert(b[i] == k);
                lemma_ascending_distinct(b, bj, i);
            }
        }
        if map_of(before).contains_key(q) && q != k {
            lemma_map_of_key(before, q);
            let j = position(before, q);
            assert(j != i);
            let aj = if j < i { j } else { j - 1 };
            assert(a[aj] == q);
        }
    }
    assert forall|q: Seq<char>| map_of(after).contains_key(q) implies map_of(after)[q] == map_of(
        before,
    ).remove(k)[q] by {
        lemma_map_of_key(after, q);
        let j = position(after, q);
        let bj = if j < i { j } else { j + 1 };
        assert(after[j] == before[bj]);
        lemma_map_of_entry(before, bj);
    }
    assert(map_of(after) =~= map_of(before).remove(k));
}

/// A map has as many keys as entries.
pub proof fn lemma_len<V>(m: SortedMap<V>)
    requires
        m.wf(),
    ensures
        m@.dom().len() == m.entries@.len(),
        m@.dom().finite(),
{
    let ks = m.keys();
    assert forall|i: int, j: int| 0 <= i < ks.len() && 0 <= j < ks.len() && i != j implies ks[i]
        != ks[j] by {
        if ks[i] == ks[j] {
            lemma_ascending_distinct(ks, i, j);
        }
    }
    ks.unique_seq_to_set();
    assert(m@.dom() =~= ks.to_set());
}

/// A list in the opposite order.
pub fn reversed<T>(v: Vec<T>) -> (r: Vec<T>)
    ensures
        r@ == v@.reverse(),
{
    let ghost all = v@;
    let mut rest = v;
    let mut r: Vec<T> = Vec::new();
    loop
        invariant
            rest@.len() <= all.len(),
            rest@ == all.take(rest@.len() as int),
            r@.len() == all.len() - rest@.len(),
            forall|i: int| 0 <= i < r@.len() ==> #[trigger] r@[i] == all[all.len() - 1 - i],
        ensures
            rest@.len() == 0,
        decreases rest@.len(),
    {
        let ghost left = rest@;
        match rest.pop() {
            None => {
                break;
            },
            Some(x) => {
                proof {
                    assert(left[left.len() - 1] == all[left.len() - 1]);
                    assert(rest@ =~= all.take(rest@.len() as int));
                }
                r.push(x);
            },
        }
    }
    assert(r@ =~= all.reverse());
    r
}

/// A map stands for its entries: a key has a value exactly if an entry has that
/// key, and then the value of that entry.
pub proof fn law_map_is_its_entries<V>(m: SortedMap<V>, i: int, k: Seq<char>)
    requires
        m.wf(),
    ensures
        0 <= i < m.entries@.len() ==> m@.contains_key(m.entries@[i].0@) && m@[m.entries@[i].0@]
            == m.entries@[i].1,
        m@.contains_key(k) <==> exists|j: int|
            0 <= j < m.entries@.len() && (#[trigger] m.entries@[j]).0@ == k,
        forall|x: int, y: int|
            0 <= x < y < m.entries@.len() ==> text::precedes(
                (#[trigger] m.entries@[x]).0@,
                (#[trigger] m.entries@[y]).0@,
            ),
{
    let ks = m.keys();
    if 0 <= i < m.entries@.len() {
        lemma_map_of_entry(m.entries@, i);
    }
    if m@.contains_key(k) {
        lemma_map_of_key(m.entries@, k);
    }
    if exists|j: int| 0 <= j < m.entries@.len() && (#[trigger] m.entries@[j]).0@ == k {
        let j = choose|j: int| 0 <= j < m.entries@.len() && (#[trigger] m.entries@[j]).0@ == k;
        lemma_map_of_entry(m.entries@, j);
    }
    assert forall|x: int, y: int| 0 <= x < y < m.entries@.len() implies text::precedes(
        (#[trigger] m.entries@[x]).0@,
        (#[trigger] m.entries@[y]).0@,
    ) by {
        assert(text::precedes(ks[x], ks[y]));
    }
}

} // verus!
