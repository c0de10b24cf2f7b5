//! Rows grouped by composite keys: the classes of rows sharing a key, in
//! the order their first rows come, and the packing of the keys that
//! charge re-anchoring, interruption summaries and rest fits group by.

use vstd::prelude::*;
use std::collections::HashMap;
use crate::segment::{State, as_ints};

verus! {

/// The rows below `n` that satisfy `p`, ascending.
pub open spec fn rows_matching(p: spec_fn(int) -> bool, n: int) -> Seq<int>
    decreases n,
{
    if n <= 0 {
        seq![]
    } else if p(n - 1) {
        rows_matching(p, n - 1).push(n - 1)
    } else {
        rows_matching(p, n - 1)
    }
}

/// `rows_matching` lists exactly the rows below `n` that satisfy `p`, ascending.
pub proof fn lemma_rows_matching(p: spec_fn(int) -> bool, n: int)
    requires
        0 <= n,
    ensures
        forall|a: int, b: int| 0 <= a < b < rows_matching(p, n).len() ==> rows_matching(p, n)[a] < rows_matching(p, n)[b],
        forall|a: int| 0 <= a < rows_matching(p, n).len() ==> 0 <= #[trigger] rows_matching(p, n)[a] < n && p(rows_matching(p, n)[a]),
        forall|r: int| 0 <= r < n && p(r) ==> #[trigger] rows_matching(p, n).contains(r),
    decreases n,
{
    if n > 0 {
        lemma_rows_matching(p, n - 1);
        let prev = rows_matching(p, n - 1);
        if p(n - 1) {
            assert forall|r: int| 0 <= r < n && p(r) implies #[trigger] rows_matching(p, n).contains(r) by {
                if r < n - 1 {
                    assert(prev.contains(r));
                    let i = choose|i: int| 0 <= i < prev.len() && prev[i] == r;
                    assert(rows_matching(p, n)[i] == r);
                } else {
                    assert(rows_matching(p, n)[prev.len() as int] == r);
                }
            }
        }
    }
}

/// Predicates that agree below `n` match the same rows below `n`.
pub proof fn lemma_rows_matching_agree(p: spec_fn(int) -> bool, q: spec_fn(int) -> bool, n: int)
    requires
        forall|j: int| 0 <= j < n ==> #[trigger] p(j) == q(j),
    ensures
        rows_matching(p, n) == rows_matching(q, n),
    decreases n,
{
    if n > 0 {
        lemma_rows_matching_agree(p, q, n - 1);
    }
}

/// The rows that are included and carry `key`.
pub open spec fn with_key(incl: Seq<bool>, keys: Seq<u128>, key: u128) -> spec_fn(int) -> bool {
    |j: int| incl[j] && keys[j] == key
}

/// The classes of `n` rows by key as they stand after the first `i` rows.
spec fn classes_so_far(classes: Seq<Vec<usize>>, incl: Seq<bool>, keys: Seq<u128>, i: int) -> bool {
    &&& forall|t: int| 0 <= t < classes.len() ==> (#[trigger] classes[t])@.len() > 0
    &&& forall|t: int| 0 <= t < classes.len() ==> as_ints((#[trigger] classes[t])@)
        == rows_matching(with_key(incl, keys, keys[classes[t]@[0] as int]), i)
    &&& forall|t: int, u: int| 0 <= t < u < classes.len() ==> (#[trigger] classes[t])@[0] < (#[trigger] classes[u])@[0]
}

/// Splits the included rows into classes of equal key: every class lists
/// the included rows with its key in ascending order, the classes come in
/// the order of their first rows, and `class[r]` names the class of each
/// included row `r`.
pub fn key_classes(keys: &[u128], member: &[bool]) -> (res: (Vec<Vec<usize>>, Vec<usize>))
    requires
        keys@.len() == member@.len(),
    ensures
        res.1@.len() == keys@.len(),
        forall|t: int| 0 <= t < res.0@.len() ==> (#[trigger] res.0@[t])@.len() > 0,
        forall|t: int| 0 <= t < res.0@.len() ==> as_ints((#[trigger] res.0@[t])@)
            == rows_matching(with_key(member@, keys@, keys@[res.0@[t]@[0] as int]), keys@.len() as int),
        forall|t: int, u: int| 0 <= t < u < res.0@.len() ==> (#[trigger] res.0@[t])@[0] < (#[trigger] res.0@[u])@[0],
        forall|r: int| 0 <= r < keys@.len() && member@[r] ==> (#[trigger] res.1@[r]) < res.0@.len()
            && keys@[res.0@[res.1@[r] as int]@[0] as int] == keys@[r],
{
    broadcast use vstd::std_specs::hash::group_hash_axioms;
    let n = keys.len();
    let mut map: HashMap<u128, usize> = HashMap::new();
    let mut classes: Vec<Vec<usize>> = Vec::new();
    let mut class: Vec<usize> = Vec::new();
    let mut i: usize = 0;
    while i < n
        invariant
            n == keys@.len() == member@.len(),
            i <= n,
            class@.len() == i,
            classes_so_far(classes@, member@, keys@, i as int),
            forall|t: int| 0 <= t < classes@.len() ==> (#[trigger] classes@[t])@[0] < i && member@[classes@[t]@[0] as int],
            forall|key: u128| #[trigger] map@.contains_key(key) <==> exists|j: int| 0 <= j < i && member@[j] && keys@[j] == key,
            forall|key: u128| #[trigger] map@.contains_key(key) ==> map@[key] < classes@.len()
                && keys@[classes@[map@[key] as int]@[0] as int] == key,
            forall|r: int| 0 <= r < i && member@[r] ==> (#[trigger] class@[r]) < classes@.len()
                && keys@[classes@[class@[r] as int]@[0] as int] == keys@[r],
        decreases n - i,
    {
        let ghost old_classes = classes@;
        let ghost old_map = map@;
        if !member[i] {
            class.push(0);
            proof {
                assert forall|t: int| 0 <= t < classes@.len() implies as_ints((#[trigger] classes@[t])@)
                    == rows_matching(with_key(member@, keys@, keys@[classes@[t]@[0] as int]), i + 1) by {
                    assert(!with_key(member@, keys@, keys@[classes@[t]@[0] as int])(i as int));
                }
                assert forall|key: u128| #[trigger] map@.contains_key(key) <==> exists|j: int| 0 <= j < i + 1 && member@[j] && keys@[j] == key by {
                    if exists|j: int| 0 <= j < i + 1 && member@[j] && keys@[j] == key {
                        let j = choose|j: int| 0 <= j < i + 1 && member@[j] && keys@[j] == key;
                        assert(j < i);
                    }
                }
            }
        } else {
            let key = keys[i];
            match map.get(&key) {
                Some(t) => {
                    let t = *t;
                    assert(old_map.contains_key(key));
                    let ghost before = classes@[t as int]@;
                    classes[t].push(i);
                    class.push(t);
                    proof {
                        assert(as_ints(classes@[t as int]@) =~= as_ints(before).push(i as int));
                        assert forall|u: int| 0 <= u < classes@.len() implies as_ints((#[trigger] classes@[u])@)
                            == rows_matching(with_key(member@, keys@, keys@[classes@[u]@[0] as int]), i + 1) by {
                            if u != t {
                                assert(classes@[u] == old_classes[u]);
                                let first = classes@[u]@[0] as int;
                                if keys@[first] == key {
                                    assert(map@.contains_key(keys@[first]));
                                    let w = choose|j: int| 0 <= j < i && member@[j] && keys@[j] == key;
                                    assert(exists|j: int| 0 <= j < i && member@[j] && keys@[j] == key);
                                    lemma_rows_matching(with_key(member@, keys@, key), i as int);
                                    assert(rows_matching(with_key(member@, keys@, key), i as int).contains(first));
                                    assert(rows_matching(with_key(member@, keys@, key), i as int).contains(classes@[t as int]@[0] as int)) by {
                                        assert(as_ints(old_classes[t as int]@)[0] == old_classes[t as int]@[0] as int);
                                    }
                                    lemma_distinct_firsts(old_classes, member@, keys@, i as int, u, t as int);
                                }
                                assert(!with_key(member@, keys@, keys@[first])(i as int));
                            } else {
                                assert(classes@[u]@[0] == before[0]);
                            }
                        }
                        assert(classes_so_far(classes@, member@, keys@, i + 1)) by {
                            assert forall|a: int, b: int| 0 <= a < b < classes@.len() implies (#[trigger] classes@[a])@[0] < (#[trigger] classes@[b])@[0] by {
                                assert(classes@[a]@[0] == old_classes[a]@[0]);
                                assert(classes@[b]@[0] == old_classes[b]@[0]);
                            }
                        }
                        assert forall|u: int| 0 <= u < classes@.len() implies (#[trigger] classes@[u])@[0] < i + 1 && member@[classes@[u]@[0] as int] by {
                            assert(classes@[u]@[0] == old_classes[u]@[0]);
                        }
                        assert forall|k2: u128| #[trigger] map@.contains_key(k2) <==> exists|j: int| 0 <= j < i + 1 && member@[j] && keys@[j] == k2 by {
                            if exists|j: int| 0 <= j < i + 1 && member@[j] && keys@[j] == k2 {
                                if k2 != key {
                                    let j = choose|j: int| 0 <= j < i + 1 && member@[j] && keys@[j] == k2;
                                    assert(j < i);
                                }
                            }
                        }
                        assert forall|k2: u128| #[trigger] map@.contains_key(k2) implies map@[k2] < classes@.len()
                            && keys@[classes@[map@[k2] as int]@[0] as int] == k2 by {
                            assert(classes@[map@[k2] as int]@[0] == old_classes[map@[k2] as int]@[0]);
                        }
                        assert forall|r: int| 0 <= r < i + 1 && member@[r] implies (#[trigger] class@[r]) < classes@.len()
                            && keys@[classes@[class@[r] as int]@[0] as int] == keys@[r] by {
                            assert(classes@[class@[r] as int]@[0] == old_classes[class@[r] as int]@[0]);
                        }
                    }
                },
                None => {
                    let t = classes.len();
                    let mut fresh: Vec<usize> = Vec::new();
                    fresh.push(i);
                    classes.push(fresh);
                    map.insert(key, t);
                    class.push(t);
                    proof {
                        assert forall|j: int| 0 <= j < i implies !(#[trigger] with_key(member@, keys@, key)(j)) by {
                            if member@[j] && keys@[j] == key {
                                assert(old_map.contains_key(key));
                            }
                        }
                        lemma_rows_matching(with_key(member@, keys@, key), i as int);
                        let prev = rows_matching(with_key(member@, keys@, key), i as int);
                        if prev.len() > 0 {
                            assert(with_key(member@, keys@, key)(prev[0]));
                        }
                        assert(as_ints(classes@[t as int]@) =~= rows_matching(with_key(member@, keys@, key), i + 1));
                        assert forall|u: int| 0 <= u < classes@.len() implies as_ints((#[trigger] classes@[u])@)
                            == rows_matching(with_key(member@, keys@, keys@[classes@[u]@[0] as int]), i + 1) by {
                            if u < t {
                                assert(classes@[u] == old_classes[u]);
                                let first = classes@[u]@[0] as int;
                                assert(old_map.contains_key(keys@[first])) by {
                                    assert(member@[first] && first < i);
                                }
                                assert(keys@[first] != key);
                            }
                        }
                        assert forall|a: int, b: int| 0 <= a < b < classes@.len() implies (#[trigger] classes@[a])@[0] < (#[trigger] classes@[b])@[0] by {
                            assert(classes@[a] == old_classes[a]);
                            if b < t {
                                assert(classes@[b] == old_classes[b]);
                            }
                        }
                        assert forall|u: int| 0 <= u < classes@.len() implies (#[trigger] classes@[u])@[0] < i + 1 && member@[classes@[u]@[0] as int] by {
                            if u < t {
                                assert(classes@[u] == old_classes[u]);
                            }
                        }
                        assert forall|k2: u128| #[trigger] map@.contains_key(k2) <==> exists|j: int| 0 <= j < i + 1 && member@[j] && keys@[j] == k2 by {
                            if k2 == key {
                                assert(member@[i as int] && keys@[i as int] == k2);
                            } else if exists|j: int| 0 <= j < i + 1 && member@[j] && keys@[j] == k2 {
                                let j = choose|j: int| 0 <= j < i + 1 && member@[j] && keys@[j] == k2;
                                assert(j < i);
                            }
                        }
                        assert forall|k2: u128| #[trigger] map@.contains_key(k2) implies map@[k2] < classes@.len()
                            && keys@[classes@[map@[k2] as int]@[0] as int] == k2 by {
                            if k2 != key {
                                assert(classes@[map@[k2] as int] == old_classes[map@[k2] as int]);
                            }
                        }
                        assert forall|r: int| 0 <= r < i + 1 && member@[r] implies (#[trigger] class@[r]) < classes@.len()
                            && keys@[classes@[class@[r] as int]@[0] as int] == keys@[r] by {
                            if r < i {
                                assert(classes@[class@[r] as int] == old_classes[class@[r] as int]);
                            }
                        }
                    }
                },
            }
        }
        i += 1;
    }
    (classes, class)
}

/// Two classes built so far carry different keys.
proof fn lemma_distinct_firsts(classes: Seq<Vec<usize>>, incl: Seq<bool>, keys: Seq<u128>, i: int, u: int, t: int)
    requires
        classes_so_far(classes, incl, keys, i),
        0 <= u < classes.len(),
        0 <= t < classes.len(),
        u != t,
        forall|v: int| 0 <= v < classes.len() ==> (#[trigger] classes[v])@[0] < i && incl[classes[v]@[0] as int],
    ensures
        keys[classes[u]@[0] as int] != keys[classes[t]@[0] as int],
{
    let fu = classes[u]@[0] as int;
    let ft = classes[t]@[0] as int;
    if keys[fu] == keys[ft] {
        let p = with_key(incl, keys, keys[fu]);
        lemma_rows_matching(p, i);
        assert(as_ints(classes[u]@)[0] == fu);
        assert(as_ints(classes[t]@)[0] == ft);
        assert(rows_matching(p, i) == as_ints(classes[t]@));
        assert(fu == ft);
        if u < t {
            assert(classes[u]@[0] < classes[t]@[0]);
        } else {
            assert(classes[t]@[0] < classes[u]@[0]);
        }
    }
}

/// Classes built by `key_classes` carry different keys.
pub proof fn lemma_classes_distinct(classes: Seq<Vec<usize>>, member: Seq<bool>, keys: Seq<u128>, t: int, u: int)
    requires
        member.len() == keys.len(),
        forall|v: int| 0 <= v < classes.len() ==> (#[trigger] classes[v])@.len() > 0,
        forall|v: int| 0 <= v < classes.len() ==> as_ints((#[trigger] classes[v])@)
            == rows_matching(with_key(member, keys, keys[classes[v]@[0] as int]), keys.len() as int),
        forall|a: int, b: int| 0 <= a < b < classes.len() ==> (#[trigger] classes[a])@[0] < (#[trigger] classes[b])@[0],
        0 <= t < classes.len(),
        0 <= u < classes.len(),
        t != u,
    ensures
        keys[classes[t]@[0] as int] != keys[classes[u]@[0] as int],
{
    let ft = classes[t]@[0] as int;
    let fu = classes[u]@[0] as int;
    if keys[ft] == keys[fu] {
        assert(as_ints(classes[t]@)[0] == ft);
        assert(as_ints(classes[u]@)[0] == fu);
        if t < u {
            assert(classes[t]@[0] < classes[u]@[0]);
        } else {
            assert(classes[u]@[0] < classes[t]@[0]);
        }
    }
}

/// The last row matching `p` below `n`, when row `r` matches: it is the
/// last entry of `rows_matching`, no earlier than `r`.
pub proof fn lemma_last_match(p: spec_fn(int) -> bool, n: int, r: int)
    requires
        0 <= r < n,
        p(r),
    ensures
        rows_matching(p, n).len() > 0,
        r <= rows_matching(p, n).last() < n,
        p(rows_matching(p, n).last()),
        forall|k: int| rows_matching(p, n).last() < k < n ==> !#[trigger] p(k),
{
    lemma_rows_matching(p, n);
    let m = rows_matching(p, n);
    assert(m.contains(r));
    let i = choose|i: int| 0 <= i < m.len() && m[i] == r;
    assert(m[m.len() - 1] >= r);
    assert forall|k: int| m.last() < k < n implies !#[trigger] p(k) by {
        if p(k) {
            assert(m.contains(k));
            let j = choose|j: int| 0 <= j < m.len() && m[j] == k;
            if j < m.len() - 1 {
                assert(m[j] < m[m.len() - 1]);
            }
        }
    }
}

/// The code a state is packed with.
pub open spec fn state_code(s: State) -> u128 {
    match s {
        State::Rest => 0,
        State::Charge => 1,
        State::Discharge => 2,
    }
}

fn state_code_of(s: State) -> (c: u128)
    ensures
        c == state_code(s),
{
    match s {
        State::Rest => 0,
        State::Charge => 1,
        State::Discharge => 2,
    }
}

/// A group, a 64-bit key and a state packed into one key (98 bits).
pub open spec fn anchor_key(g: u32, cyc: u64, s: State) -> u128 {
    ((g as u128) << 66u128) | ((cyc as u128) << 2u128) | state_code(s)
}

/// A group and a 64-bit key packed into one key (96 bits).
pub open spec fn cycle_key(g: u32, cyc: u64) -> u128 {
    ((g as u128) << 64u128) | (cyc as u128)
}

/// A 64-bit id, a state and a 32-bit id packed into one key (98 bits).
pub open spec fn run_key(d: u64, s: State, rest: u32) -> u128 {
    ((d as u128) << 34u128) | (state_code(s) << 32u128) | (rest as u128)
}

/// A group and a 32-bit id packed into one key (64 bits).
pub open spec fn rest_key(g: u32, rest: u32) -> u128 {
    ((g as u128) << 32u128) | (rest as u128)
}

proof fn lemma_anchor_key_injective(g1: u32, c1: u64, s1: State, g2: u32, c2: u64, s2: State)
    ensures
        anchor_key(g1, c1, s1) == anchor_key(g2, c2, s2) <==> (g1 == g2 && c1 == c2 && s1 == s2),
{
    let a = state_code(s1);
    let b = state_code(s2);
    assert(a < 4 && b < 4);
    assert(((g1 as u128) << 66u128) | ((c1 as u128) << 2u128) | a == ((g2 as u128) << 66u128) | ((c2 as u128) << 2u128) | b
        ==> g1 == g2 && c1 == c2 && a == b) by (bit_vector)
        requires
            a < 4,
            b < 4,
    ;
}

proof fn lemma_cycle_key_injective(g1: u32, c1: u64, g2: u32, c2: u64)
    ensures
        cycle_key(g1, c1) == cycle_key(g2, c2) <==> (g1 == g2 && c1 == c2),
{
    assert(((g1 as u128) << 64u128) | (c1 as u128) == ((g2 as u128) << 64u128) | (c2 as u128) ==> g1 == g2 && c1 == c2)
        by (bit_vector);
}

proof fn lemma_run_key_injective(d1: u64, s1: State, r1: u32, d2: u64, s2: State, r2: u32)
    ensures
        run_key(d1, s1, r1) == run_key(d2, s2, r2) <==> (d1 == d2 && s1 == s2 && r1 == r2),
{
    let a = state_code(s1);
    let b = state_code(s2);
    assert(((d1 as u128) << 34u128) | (a << 32u128) | (r1 as u128) == ((d2 as u128) << 34u128) | (b << 32u128) | (r2 as u128)
        ==> d1 == d2 && a == b && r1 == r2) by (bit_vector)
        requires
            a < 4,
            b < 4,
    ;
}

proof fn lemma_rest_key_injective(g1: u32, r1: u32, g2: u32, r2: u32)
    ensures
        rest_key(g1, r1) == rest_key(g2, r2) <==> (g1 == g2 && r1 == r2),
{
    assert(((g1 as u128) << 32u128) | (r1 as u128) == ((g2 as u128) << 32u128) | (r2 as u128) ==> g1 == g2 && r1 == r2)
        by (bit_vector);
}

/// Rows `i` and `j` share group, 64-bit key and state.
pub open spec fn same_anchor(gid: Seq<u32>, cyc: Seq<u64>, st: Seq<State>, i: int, j: int) -> bool {
    gid[i] == gid[j] && cyc[i] == cyc[j] && st[i] == st[j]
}

/// For every row, the last row with the same group, 64-bit key and state:
/// the row a quantity anchored at the end of its run is measured from.
pub fn end_anchor_rows(group_id: &[u32], cyc_key: &[u64], state: &[State]) -> (last: Vec<usize>)
    requires
        group_id@.len() == cyc_key@.len() == state@.len(),
    ensures
        last@.len() == group_id@.len(),
        forall|r: int| 0 <= r < group_id@.len() ==> {
            let j = #[trigger] last@[r] as int;
            &&& r <= j < group_id@.len()
            &&& same_anchor(group_id@, cyc_key@, state@, r, j)
            &&& forall|k: int| j < k < group_id@.len() ==> !same_anchor(group_id@, cyc_key@, state@, r, k)
        },
{
    let n = group_id.len();
    let mut keys: Vec<u128> = Vec::new();
    let mut all: Vec<bool> = Vec::new();
    let mut i: usize = 0;
    while i < n
        invariant
            n == group_id@.len() == cyc_key@.len() == state@.len(),
            i <= n,
            keys@.len() == i && all@.len() == i,
            forall|j: int| 0 <= j < i ==> keys@[j] == anchor_key(group_id@[j], cyc_key@[j], state@[j]) && all@[j],
        decreases n - i,
    {
        let c = state_code_of(state[i]);
        keys.push(((group_id[i] as u128) << 66u128) | ((cyc_key[i] as u128) << 2u128) | c);
        all.push(true);
        i += 1;
    }
    let (classes, class) = key_classes(&keys, &all);
    let mut last: Vec<usize> = Vec::new();
    let mut r: usize = 0;
    while r < n
        invariant
            n == group_id@.len() == cyc_key@.len() == state@.len() == keys@.len() == all@.len() == class@.len(),
            r <= n,
            last@.len() == r,
            forall|j: int| 0 <= j < n ==> keys@[j] == anchor_key(group_id@[j], cyc_key@[j], state@[j]) && all@[j],
            forall|t: int| 0 <= t < classes@.len() ==> (#[trigger] classes@[t])@.len() > 0,
            forall|t: int| 0 <= t < classes@.len() ==> as_ints((#[trigger] classes@[t])@)
                == rows_matching(with_key(all@, keys@, keys@[classes@[t]@[0] as int]), n as int),
            forall|j: int| 0 <= j < n && all@[j] ==> (#[trigger] class@[j]) < classes@.len()
                && keys@[classes@[class@[j] as int]@[0] as int] == keys@[j],
            forall|q: int| 0 <= q < r ==> {
                let j = #[trigger] last@[q] as int;
                &&& q <= j < n
                &&& same_anchor(group_id@, cyc_key@, state@, q, j)
                &&& forall|k: int| j < k < n ==> !same_anchor(group_id@, cyc_key@, state@, q, k)
            },
        decreases n - r,
    {
        let c = &classes[class[r]];
        let j = c[c.len() - 1];
        proof {
            let p = with_key(all@, keys@, keys@[r as int]);
            assert(as_ints(c@) == rows_matching(p, n as int));
            lemma_last_match(p, n as int, r as int);
            assert(rows_matching(p, n as int).last() == j as int);
            lemma_anchor_key_injective(group_id@[r as int], cyc_key@[r as int], state@[r as int], group_id@[j as int],
                cyc_key@[j as int], state@[j as int]);
            assert forall|k: int| j < k < n implies !same_anchor(group_id@, cyc_key@, state@, r as int, k) by {
                assert(!p(k));
                lemma_anchor_key_injective(group_id@[r as int], cyc_key@[r as int], state@[r as int], group_id@[k],
                    cyc_key@[k], state@[k]);
            }
        }
        last.push(j);
        r += 1;
    }
    last
}

/// Classes of equal key pick out rows of equal key: two rows fall in the
/// same class exactly when their keys are equal.
proof fn lemma_same_class(classes: Seq<Vec<usize>>, class: Seq<usize>, member: Seq<bool>, keys: Seq<u128>, i: int, j: int)
    requires
        member.len() == keys.len() == class.len(),
        forall|v: int| 0 <= v < classes.len() ==> (#[trigger] classes[v])@.len() > 0,
        forall|v: int| 0 <= v < classes.len() ==> as_ints((#[trigger] classes[v])@)
            == rows_matching(with_key(member, keys, keys[classes[v]@[0] as int]), keys.len() as int),
        forall|a: int, b: int| 0 <= a < b < classes.len() ==> (#[trigger] classes[a])@[0] < (#[trigger] classes[b])@[0],
        forall|r: int| 0 <= r < keys.len() && member[r] ==> (#[trigger] class[r]) < classes.len()
            && keys[classes[class[r] as int]@[0] as int] == keys[r],
        0 <= i < keys.len() && member[i],
        0 <= j < keys.len() && member[j],
    ensures
        class[i] == class[j] <==> keys[i] == keys[j],
{
    if class[i] != class[j] {
        lemma_classes_distinct(classes, member, keys, class[i] as int, class[j] as int);
    }
}

/// Row `j` is active and shares group, 64-bit key, state and rest id with row `r0`.
pub open spec fn same_interruption(gid: Seq<u32>, cyc: Seq<u64>, st: Seq<State>, rest: Seq<u32>, r0: int) -> spec_fn(int) -> bool {
    |j: int| st[j] != State::Rest && gid[j] == gid[r0] && cyc[j] == cyc[r0] && st[j] == st[r0] && rest[j] == rest[r0]
}

/// The active rows grouped by group, 64-bit key, state and rest id: one
/// class per interruption, listing its rows in ascending order, the
/// classes in the order of their first rows.
pub fn interruption_rows(group_id: &[u32], cyc_key: &[u64], state: &[State], rest: &[u32]) -> (classes: Vec<Vec<usize>>)
    requires
        group_id@.len() == cyc_key@.len() == state@.len() == rest@.len(),
    ensures
        forall|t: int| 0 <= t < classes@.len() ==> (#[trigger] classes@[t])@.len() > 0,
        forall|t: int| 0 <= t < classes@.len() ==> as_ints((#[trigger] classes@[t])@)
            == rows_matching(same_interruption(group_id@, cyc_key@, state@, rest@, classes@[t]@[0] as int), group_id@.len() as int),
        forall|t: int, u: int| 0 <= t < u < classes@.len() ==> (#[trigger] classes@[t])@[0] < (#[trigger] classes@[u])@[0],
        forall|r: int| 0 <= r < group_id@.len() && state@[r] != State::Rest ==> exists|t: int| 0 <= t < classes@.len() && #[trigger] as_ints(classes@[t]@).contains(r),
{
    let n = group_id.len();
    let mut keys1: Vec<u128> = Vec::new();
    let mut all: Vec<bool> = Vec::new();
    let mut i: usize = 0;
    while i < n
        invariant
            n == group_id@.len() == cyc_key@.len() == state@.len() == rest@.len(),
            i <= n,
            keys1@.len() == i && all@.len() == i,
            forall|j: int| 0 <= j < i ==> keys1@[j] == cycle_key(group_id@[j], cyc_key@[j]) && all@[j],
        decreases n - i,
    {
        keys1.push(((group_id[i] as u128) << 64u128) | (cyc_key[i] as u128));
        all.push(true);
        i += 1;
    }
    let (cycles, dense) = key_classes(&keys1, &all);
    let mut keys2: Vec<u128> = Vec::new();
    let mut active: Vec<bool> = Vec::new();
    let mut i: usize = 0;
    while i < n
        invariant
            n == group_id@.len() == cyc_key@.len() == state@.len() == rest@.len() == dense@.len(),
            i <= n,
            keys2@.len() == i && active@.len() == i,
            forall|j: int| 0 <= j < i ==> keys2@[j] == run_key(dense@[j] as u64, state@[j], rest@[j])
                && active@[j] == (state@[j] != State::Rest),
        decreases n - i,
    {
        let c = state_code_of(state[i]);
        keys2.push(((dense[i] as u64 as u128) << 34u128) | (c << 32u128) | (rest[i] as u128));
        active.push(match state[i] {
            State::Rest => false,
            _ => true,
        });
        i += 1;
    }
    let (classes, class) = key_classes(&keys2, &active);
    proof {
        let gid = group_id@;
        let cyc = cyc_key@;
        let st = state@;
        let rs = rest@;
        assert forall|t: int| 0 <= t < classes@.len() implies as_ints((#[trigger] classes@[t])@)
            == rows_matching(same_interruption(gid, cyc, st, rs, classes@[t]@[0] as int), n as int) by {
            let r0 = classes@[t]@[0] as int;
            let p = with_key(active@, keys2@, keys2@[r0]);
            let q = same_interruption(gid, cyc, st, rs, r0);
            assert(as_ints(classes@[t]@)[0] == r0);
            lemma_rows_matching(p, n as int);
            assert(p(r0));
            assert forall|j: int| 0 <= j < n implies #[trigger] p(j) == q(j) by {
                lemma_run_key_injective(dense@[j] as u64, st[j], rs[j], dense@[r0] as u64, st[r0], rs[r0]);
                lemma_same_class(cycles@, dense@, all@, keys1@, j, r0);
                lemma_cycle_key_injective(gid[j], cyc[j], gid[r0], cyc[r0]);
            }
            lemma_rows_matching_agree(p, q, n as int);
        }
        assert forall|r: int| 0 <= r < n && st[r] != State::Rest implies exists|t: int| 0 <= t < classes@.len() && #[trigger] as_ints(classes@[t]@).contains(r) by {
            let t = class@[r] as int;
            let p = with_key(active@, keys2@, keys2@[r]);
            lemma_rows_matching(p, n as int);
            assert(p(r));
            assert(as_ints(classes@[t]@).contains(r));
        }
    }
    classes
}

/// Row `j` is a rest row with row `r0`'s group and rest id.
pub open spec fn same_rest(gid: Seq<u32>, st: Seq<State>, rest: Seq<u32>, r0: int) -> spec_fn(int) -> bool {
    |j: int| st[j] == State::Rest && gid[j] == gid[r0] && rest[j] == rest[r0]
}

/// The rest rows grouped by group and rest id: one class per rest,
/// listing its rows in ascending order, the classes in the order of their
/// first rows.
pub fn rest_rows(group_id: &[u32], state: &[State], rest: &[u32]) -> (classes: Vec<Vec<usize>>)
    requires
        group_id@.len() == state@.len() == rest@.len(),
    ensures
        forall|t: int| 0 <= t < classes@.len() ==> (#[trigger] classes@[t])@.len() > 0,
        forall|t: int| 0 <= t < classes@.len() ==> as_ints((#[trigger] classes@[t])@)
            == rows_matching(same_rest(group_id@, state@, rest@, classes@[t]@[0] as int), group_id@.len() as int),
        forall|t: int, u: int| 0 <= t < u < classes@.len() ==> (#[trigger] classes@[t])@[0] < (#[trigger] classes@[u])@[0],
        forall|r: int| 0 <= r < group_id@.len() && state@[r] == State::Rest ==> exists|t: int| 0 <= t < classes@.len() && #[trigger] as_ints(classes@[t]@).contains(r),
{
    let n = group_id.len();
    let mut keys: Vec<u128> = Vec::new();
    let mut resting: Vec<bool> = Vec::new();
    let mut i: usize = 0;
    while i < n
        invariant
            n == group_id@.len() == state@.len() == rest@.len(),
            i <= n,
            keys@.len() == i && resting@.len() == i,
            forall|j: int| 0 <= j < i ==> keys@[j] == rest_key(group_id@[j], rest@[j])
                && resting@[j] == (state@[j] == State::Rest),
        decreases n - i,
    {
        keys.push(((group_id[i] as u128) << 32u128) | (rest[i] as u128));
        resting.push(match state[i] {
            State::Rest => true,
            _ => false,
        });
        i += 1;
    }
    let (classes, class) = key_classes(&keys, &resting);
    proof {
        let gid = group_id@;
        let st = state@;
        let rs = rest@;
        assert forall|t: int| 0 <= t < classes@.len() implies as_ints((#[trigger] classes@[t])@)
            == rows_matching(same_rest(gid, st, rs, classes@[t]@[0] as int), n as int) by {
            let r0 = classes@[t]@[0] as int;
            let p = with_key(resting@, keys@, keys@[r0]);
            let q = same_rest(gid, st, rs, r0);
            assert(as_ints(classes@[t]@)[0] == r0);
            lemma_rows_matching(p, n as int);
            assert forall|j: int| 0 <= j < n implies #[trigger] p(j) == q(j) by {
                lemma_rest_key_injective(gid[j], rs[j], gid[r0], rs[r0]);
            }
            lemma_rows_matching_agree(p, q, n as int);
        }
        assert forall|r: int| 0 <= r < n && st[r] == State::Rest implies exists|t: int| 0 <= t < classes@.len() && #[trigger] as_ints(classes@[t]@).contains(r) by {
            let t = class@[r] as int;
            let p = with_key(resting@, keys@, keys@[r]);
            lemma_rows_matching(p, n as int);
            assert(p(r));
            assert(as_ints(classes@[t]@).contains(r));
        }
    }
    classes
}

} // verus!
