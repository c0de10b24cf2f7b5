//! Following chains of block links without looping: the addresses visited
//! so far, and why a chain of distinct in-file addresses must end.

use vstd::prelude::*;

verus! {

/// `v` holds distinct addresses, none past `bound`.
pub open spec fn distinct_within(v: Seq<u64>, bound: int) -> bool {
    &&& v.no_duplicates()
    &&& forall|i: int| 0 <= i < v.len() ==> (v[i] as int) <= bound
}

/// Distinct values that are all below `n` number at most `n`.
pub proof fn lemma_distinct_below(v: Seq<u64>, n: int)
    requires
        n >= 0,
        v.no_duplicates(),
        forall|i: int| 0 <= i < v.len() ==> (v[i] as int) < n,
    ensures
        v.len() <= n,
    decreases n,
{
    if n == 0 {
        if v.len() > 0 {
            assert((v[0] as int) < 0);
        }
    } else if exists|k: int| 0 <= k < v.len() && v[k] as int == n - 1 {
        let k = choose|k: int| 0 <= k < v.len() && v[k] as int == n - 1;
        let w = v.remove(k);
        assert forall|i: int| 0 <= i < w.len() implies (w[i] as int) < n - 1 by {
            if i < k {
                assert(w[i] == v[i]);
                assert(v[i] != v[k]);
            } else {
                assert(w[i] == v[i + 1]);
                assert(v[i + 1] != v[k]);
            }
        }
        assert forall|i: int, j: int| 0 <= i < w.len() && 0 <= j < w.len() && i != j implies w[i]
            != w[j] by {
            let vi = if i < k {
                i
            } else {
                i + 1
            };
            let vj = if j < k {
                j
            } else {
                j + 1
            };
            assert(w[i] == v[vi]);
            assert(w[j] == v[vj]);
        }
        lemma_distinct_below(w, n - 1);
    } else {
        lemma_distinct_below(v, n - 1);
    }
}

/// Distinct addresses none past `bound` number at most `bound + 1`.
pub proof fn lemma_distinct_within_len(v: Seq<u64>, bound: int)
    requires
        bound >= 0,
        distinct_within(v, bound),
    ensures
        v.len() <= bound + 1,
{
    lemma_distinct_below(v, bound + 1);
}

/// Adding a new address keeps the visited list distinct.
pub proof fn lemma_distinct_push(v: Seq<u64>, a: u64, bound: int)
    requires
        distinct_within(v, bound),
        !v.contains(a),
        (a as int) <= bound,
    ensures
        distinct_within(v.push(a), bound),
{
    let w = v.push(a);
    assert forall|i: int, j: int| 0 <= i < w.len() && 0 <= j < w.len() && i != j implies w[i]
        != w[j] by {
        if i == v.len() as int {
            assert(w[j] == v[j]);
        } else if j == v.len() as int {
            assert(w[i] == v[i]);
        } else {
            assert(w[i] == v[i] && w[j] == v[j]);
        }
    }
}

/// Whether `addr` has already been visited.
pub fn visited_contains(visited: &Vec<u64>, addr: u64) -> (r: bool)
    ensures
        r == visited@.contains(addr),
{
    let mut i: usize = 0;
    while i < visited.len()
        invariant
            i <= visited@.len(),
            forall|j: int| 0 <= j < i ==> visited@[j] != addr,
        decreases visited@.len() - i,
    {
        if visited[i] == addr {
            assert(visited@[i as int] == addr);
            return true;
        }
        i += 1;
    }
    false
}

} // verus!
