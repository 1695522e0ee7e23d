//! Linear search: the first position that satisfies a predicate.

use vstd::prelude::*;

verus! {

/// The least `i` in `0..n` with `p(i)`, or `n` where there is none.
pub open spec fn first_index(n: int, p: spec_fn(int) -> bool) -> int
    decreases n,
{
    if n <= 0 {
        0
    } else {
        let k = first_index(n - 1, p);
        if k < n - 1 {
            k
        } else if p(n - 1) {
            n - 1
        } else {
            n
        }
    }
}

/// `first_index` lies in `0..=n`, satisfies `p` where it is below `n`, and
/// nothing before it satisfies `p`.
pub proof fn lemma_first_index(n: int, p: spec_fn(int) -> bool)
    requires
        0 <= n,
    ensures
        0 <= first_index(n, p) <= n,
        first_index(n, p) < n ==> p(first_index(n, p)),
        forall|k: int| 0 <= k < first_index(n, p) ==> !(#[trigger] p(k)),
    decreases n,
{
    if n > 0 {
        lemma_first_index(n - 1, p);
    }
}

/// A position that satisfies `p` (or `n`), with nothing before it that does,
/// is `first_index`.
pub proof fn lemma_first_index_is(n: int, p: spec_fn(int) -> bool, i: int)
    requires
        0 <= i <= n,
        i < n ==> p(i),
        forall|k: int| 0 <= k < i ==> !(#[trigger] p(k)),
    ensures
        first_index(n, p) == i,
{
    lemma_first_index(n, p);
    let f = first_index(n, p);
    if f < i {
        assert(!p(f));
    }
    if i < f {
        assert(!p(i));
    }
}


/// Distinct numbers below `n` are at most `n` in number.
pub proof fn lemma_distinct_bounded(path: Seq<usize>, n: int)
    requires
        0 <= n,
        path.no_duplicates(),
        forall|k: int| 0 <= k < path.len() ==> path[k] < n,
    ensures
        path.len() <= n,
    decreases n,
{
    if path.len() > 0 {
        if n == 0 {
            assert(path[0] < 0);
        } else if exists|k: int| 0 <= k < path.len() && path[k] == n - 1 {
            let k = choose|k: int| 0 <= k < path.len() && path[k] == n - 1;
            let rest = path.remove(k);
            assert forall|i: int, j: int| 0 <= i < rest.len() && 0 <= j < rest.len() && i != j implies rest[i]
                != rest[j] by {
                let a = if i < k { i } else { i + 1 };
                let b = if j < k { j } else { j + 1 };
                assert(rest[i] == path[a] && rest[j] == path[b]);
            }
            assert forall|i: int| 0 <= i < rest.len() implies rest[i] < n - 1 by {
                let a = if i < k { i } else { i + 1 };
                assert(rest[i] == path[a]);
                assert(path[a] != path[k]);
            }
            lemma_distinct_bounded(rest, n - 1);
        } else {
            lemma_distinct_bounded(path, n - 1);
        }
    }
}

} // verus!
