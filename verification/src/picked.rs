//! Lists of what is picked, number by number.

use vstd::prelude::*;

verus! {

/// What is picked for the numbers below `n`, in their order.
pub open spec fn picked<T>(n: int, pick: spec_fn(int) -> Option<T>) -> Seq<T>
    decreases n,
{
    if n <= 0 {
        Seq::empty()
    } else {
        let front = picked(n - 1, pick);
        match pick(n - 1) {
            Some(t) => front.push(t),
            None => front,
        }
    }
}

/// What is picked below a bound depends on nothing above it.
pub proof fn lemma_picked_same<T>(
    n: int,
    a: spec_fn(int) -> Option<T>,
    b: spec_fn(int) -> Option<T>,
)
    requires
        forall|k: int| 0 <= k < n ==> #[trigger] a(k) == b(k),
    ensures
        picked(n, a) == picked(n, b),
    decreases n,
{
    if n > 0 {
        lemma_picked_same(n - 1, a, b);
        assert(a(n - 1) == b(n - 1));
    }
}

/// What stands in the list was picked, and what stands later was picked later.
pub proof fn lemma_picked_pair<T>(n: int, pick: spec_fn(int) -> Option<T>, i: int, j: int) -> (r: (
    int,
    int,
))
    requires
        0 <= i <= j < picked(n, pick).len(),
    ensures
        0 <= r.0 <= r.1 < n,
        i < j ==> r.0 < r.1,
        i == j ==> r.0 == r.1,
        pick(r.0) == Some(picked(n, pick)[i]),
        pick(r.1) == Some(picked(n, pick)[j]),
    decreases n,
{
    let front = picked(n - 1, pick);
    if j < front.len() {
        lemma_picked_pair(n - 1, pick, i, j)
    } else if i < front.len() {
        let (a, _) = lemma_picked_pair(n - 1, pick, i, i);
        (a, n - 1)
    } else {
        (n - 1, n - 1)
    }
}

/// What was picked stands in the list.
pub proof fn lemma_picked_found<T>(n: int, pick: spec_fn(int) -> Option<T>, k: int) -> (i: int)
    requires
        0 <= k < n,
        pick(k) is Some,
    ensures
        0 <= i < picked(n, pick).len(),
        pick(k) == Some(picked(n, pick)[i]),
    decreases n,
{
    let front = picked(n - 1, pick);
    if k == n - 1 {
        front.len() as int
    } else {
        lemma_picked_found(n - 1, pick, k)
    }
}

} // verus!
