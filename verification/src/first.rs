//! The first of a number of findings.
use vstd::prelude::*;

verus! {

/// What the first index below `n` with a finding finds.
pub open spec fn first_some<T>(n: nat, f: spec_fn(nat) -> Option<T>) -> Option<T>
    decreases n,
{
    if n == 0 {
        None
    } else {
        match first_some((n - 1) as nat, f) {
            Some(e) => Some(e),
            None => f((n - 1) as nat),
        }
    }
}

/// A finding among the first indices is the first of all.
pub proof fn lemma_first_stays<T>(n: nat, k: nat, f: spec_fn(nat) -> Option<T>)
    requires
        k <= n,
        first_some(k, f) is Some,
    ensures
        first_some(n, f) == first_some(k, f),
    decreases n - k,
{
    if k < n {
        lemma_first_stays(n, k + 1, f);
    }
}

/// There is no first finding exactly where there is none at all.
pub proof fn lemma_none_found<T>(n: nat, f: spec_fn(nat) -> Option<T>)
    ensures
        first_some(n, f) is None <==> forall|i: nat| i < n ==> #[trigger] f(i) is None,
    decreases n,
{
    if n > 0 {
        lemma_none_found((n - 1) as nat, f);
        if first_some(n, f) is None {
            assert forall|i: nat| i < n implies #[trigger] f(i) is None by {
                if i == n - 1 {
                    assert(f((n - 1) as nat) is None);
                }
            }
        } else if forall|i: nat| i < n ==> #[trigger] f(i) is None {
            assert(f((n - 1) as nat) is None);
        }
    }
}

/// What is found first is what the least index with a finding finds.
pub proof fn law_first_is_least<T>(n: nat, f: spec_fn(nat) -> Option<T>, i: nat)
    requires
        i < n,
        f(i) is Some,
        forall|j: nat| j < i ==> #[trigger] f(j) is None,
    ensures
        first_some(n, f) == f(i),
{
    lemma_none_found(i, f);
    assert(first_some(i + 1, f) == f(i));
    lemma_first_stays(n, i + 1, f);
}

/// Whatever is found stands at some index, with nothing found before it.
pub proof fn law_first_stands_somewhere<T>(n: nat, f: spec_fn(nat) -> Option<T>)
    ensures
        first_some(n, f) is None <==> forall|i: nat| i < n ==> #[trigger] f(i) is None,
        first_some(n, f) is Some ==> exists|i: nat|
            i < n && #[trigger] f(i) == first_some(n, f) && forall|j: nat|
                j < i ==> #[trigger] f(j) is None,
    decreases n,
{
    lemma_none_found(n, f);
    if first_some(n, f) is Some {
        let k = (n - 1) as nat;
        law_first_stands_somewhere(k, f);
        if first_some(k, f) is None {
            assert(f(k) == first_some(n, f));
        }
    }
}

} // verus!
