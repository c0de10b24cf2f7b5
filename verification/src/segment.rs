//! Segmentation of a cycling record into rests and active runs: the rest
//! index of every row, the rows dropped as unrested reversals, as a
//! leading rest or as an incomplete final step, and the anchor row each
//! row's step time and charge are measured from.

use vstd::prelude::*;
use std::collections::HashMap;

verus! {

/// The state of a sample: resting, charging or discharging.
#[derive(Debug, Clone, Copy, PartialEq, Eq, Hash, Structural)]
pub enum State {
    Rest,
    Charge,
    Discharge,
}

impl State {
    /// The state's label: `"R"`, `"charge"` or `"discharge"`.
    pub fn as_str(self) -> (s: &'static str)
        ensures
            s@ == (match self {
                State::Rest => "R"@,
                State::Charge => "charge"@,
                State::Discharge => "discharge"@,
            }),
    {
        match self {
            State::Rest => "R",
            State::Charge => "charge",
            State::Discharge => "discharge",
        }
    }
}

/// The active states at `e` and `e + 1` differ: the run ending at `e`
/// reverses into the opposite active state with no rest between.
pub open spec fn reverses_at(s: Seq<State>, e: int) -> bool {
    &&& 0 <= e
    &&& e + 1 < s.len()
    &&& s[e] != State::Rest
    &&& s[e + 1] != State::Rest
    &&& s[e] != s[e + 1]
}

/// The samples from `k` through `e` all have the state of `e`.
pub open spec fn same_run(s: Seq<State>, k: int, e: int) -> bool {
    forall|m: int| k <= m <= e ==> #[trigger] s[m] == s[e]
}

/// Sample `k` belongs to an active run that reverses without a rest.
pub open spec fn in_unrested_reversal(s: Seq<State>, k: int) -> bool {
    exists|e: int| k <= e && #[trigger] reverses_at(s, e) && same_run(s, k, e)
}

/// Marks every sample of an active run that reverses directly into the
/// opposite active state with no intervening rest.
pub fn find_unrested_reversal_rows(state: &[State]) -> (remove: Vec<bool>)
    ensures
        remove@.len() == state@.len(),
        forall|k: int| 0 <= k < state@.len() ==> #[trigger] remove@[k] == in_unrested_reversal(state@, k),
{
    let n = state.len();
    let mut remove: Vec<bool> = Vec::new();
    let mut j: usize = 0;
    while j < n
        invariant
            n == state@.len(),
            j <= n,
            remove@.len() == j,
            forall|k: int| 0 <= k < j ==> !#[trigger] remove@[k],
        decreases n - j,
    {
        remove.push(false);
        j += 1;
    }
    if n < 2 {
        assert forall|k: int| 0 <= k < state@.len() implies #[trigger] remove@[k] == in_unrested_reversal(state@, k) by {
            if in_unrested_reversal(state@, k) {
                let e = choose|e: int| k <= e && #[trigger] reverses_at(state@, e) && same_run(state@, k, e);
            }
        }
        return remove;
    }
    let mut i: usize = 0;
    while i < n - 1
        invariant
            n == state@.len(),
            n >= 2,
            i <= n - 1,
            remove@.len() == n,
            forall|k: int| 0 <= k < n ==> #[trigger] remove@[k] == (exists|e: int| k <= e < i && #[trigger] reverses_at(state@, e) && same_run(state@, k, e)),
        decreases n - 1 - i,
    {
        let active_i = state[i] != State::Rest;
        let active_next = state[i + 1] != State::Rest;
        if active_i && active_next && state[i] != state[i + 1] {
            let end_index = i;
            let mut start_index = end_index;
            while start_index > 0 && state[start_index - 1] != State::Rest && state[start_index - 1] == state[end_index]
                invariant
                    start_index <= end_index,
                    end_index < n,
                    n == state@.len(),
                    same_run(state@, start_index as int, end_index as int),
                decreases start_index,
            {
                start_index -= 1;
            }
            assert(reverses_at(state@, i as int));
            let mut r = start_index;
            let ghost before = remove@;
            while r <= end_index
                invariant
                    start_index <= r <= end_index + 1,
                    end_index == i,
                    end_index < n,
                    remove@.len() == n,
                    forall|k: int| 0 <= k < n ==> #[trigger] remove@[k] == (before[k] || (start_index <= k < r)),
                decreases end_index + 1 - r,
            {
                remove.set(r, true);
                r += 1;
            }
            proof {
                assert forall|k: int| 0 <= k < n implies #[trigger] remove@[k] == (exists|e: int| k <= e < i + 1 && #[trigger] reverses_at(state@, e) && same_run(state@, k, e)) by {
                    if start_index <= k <= i {
                        assert(same_run(state@, k, i as int));
                    }
                    if exists|e: int| k <= e < i + 1 && #[trigger] reverses_at(state@, e) && same_run(state@, k, e) {
                        let e = choose|e: int| k <= e < i + 1 && #[trigger] reverses_at(state@, e) && same_run(state@, k, e);
                        if e == i && k < start_index {
                            assert(state@[start_index - 1] == state@[i as int]);
                        }
                    }
                }
            }
        }
        i += 1;
    }
    proof {
        assert forall|k: int| 0 <= k < n implies #[trigger] remove@[k] == in_unrested_reversal(state@, k) by {
            if in_unrested_reversal(state@, k) {
                let e = choose|e: int| k <= e && #[trigger] reverses_at(state@, e) && same_run(state@, k, e);
                assert(e < n - 1);
            }
        }
    }
    remove
}

/// The rows of group `g` among the first `n` rows, in ascending order.
pub open spec fn rows_of(gid: Seq<u32>, g: u32, n: int) -> Seq<int>
    decreases n,
{
    if n <= 0 {
        seq![]
    } else if gid[n - 1] == g {
        rows_of(gid, g, n - 1).push(n - 1)
    } else {
        rows_of(gid, g, n - 1)
    }
}

/// The rows of group `g` are ascending rows below `n` of that group, and
/// every such row is among them.
proof fn lemma_rows_of(gid: Seq<u32>, g: u32, n: int)
    requires
        0 <= n <= gid.len(),
    ensures
        forall|a: int, b: int| 0 <= a < b < rows_of(gid, g, n).len() ==> rows_of(gid, g, n)[a] < rows_of(gid, g, n)[b],
        forall|a: int| 0 <= a < rows_of(gid, g, n).len() ==> 0 <= #[trigger] rows_of(gid, g, n)[a] < n && gid[rows_of(gid, g, n)[a]] == g,
        forall|r: int| 0 <= r < n && gid[r] == g ==> #[trigger] rows_of(gid, g, n).contains(r),
    decreases n,
{
    if n > 0 {
        lemma_rows_of(gid, g, n - 1);
        let prev = rows_of(gid, g, n - 1);
        if gid[n - 1] == g {
            assert forall|r: int| 0 <= r < n && gid[r] == g implies #[trigger] rows_of(gid, g, n).contains(r) by {
                if r < n - 1 {
                    assert(prev.contains(r));
                    let i = choose|i: int| 0 <= i < prev.len() && prev[i] == r;
                    assert(rows_of(gid, g, n)[i] == r);
                } else {
                    assert(rows_of(gid, g, n)[prev.len() as int] == r);
                }
            }
        }
    }
}

/// A group has at most as many rows as there are rows.
proof fn lemma_rows_of_len(gid: Seq<u32>, g: u32, n: int)
    requires
        0 <= n,
    ensures
        rows_of(gid, g, n).len() <= n,
    decreases n,
{
    if n > 0 {
        lemma_rows_of_len(gid, g, n - 1);
    }
}

/// Rows of a group below `m` come first among those below `n`.
proof fn lemma_rows_of_prefix(gid: Seq<u32>, g: u32, m: int, n: int)
    requires
        0 <= m <= n <= gid.len(),
    ensures
        rows_of(gid, g, m).len() <= rows_of(gid, g, n).len(),
        rows_of(gid, g, m) == rows_of(gid, g, n).take(rows_of(gid, g, m).len() as int),
    decreases n - m,
{
    if m < n {
        lemma_rows_of_prefix(gid, g, m, n - 1);
        let a = rows_of(gid, g, m);
        let b = rows_of(gid, g, n - 1);
        if gid[n - 1] == g {
            assert(b.push(n - 1).take(a.len() as int) =~= b.take(a.len() as int));
        }
    } else {
        assert(rows_of(gid, g, m).take(rows_of(gid, g, m).len() as int) =~= rows_of(gid, g, m));
    }
}

/// A row sits in its group's list at the count of earlier rows of the group.
proof fn lemma_row_position(gid: Seq<u32>, r: int)
    requires
        0 <= r < gid.len(),
    ensures
        rows_of(gid, gid[r], r).len() < rows_of(gid, gid[r], gid.len() as int).len(),
        rows_of(gid, gid[r], gid.len() as int)[rows_of(gid, gid[r], r).len() as int] == r,
{
    let g = gid[r];
    lemma_rows_of_prefix(gid, g, r + 1, gid.len() as int);
    let p = rows_of(gid, g, r).len() as int;
    assert(rows_of(gid, g, r + 1)[p] == r);
}

/// Row `r`'s position within its group.
pub open spec fn gpos(gid: Seq<u32>, r: int) -> int {
    rows_of(gid, gid[r], r).len() as int
}

/// The rows of row `r`'s group.
pub open spec fn grows(gid: Seq<u32>, r: int) -> Seq<int> {
    rows_of(gid, gid[r], gid.len() as int)
}

/// The rows of every group, groups in the order their first rows come,
/// each group's rows ascending; and the group of every row.
fn group_indices(group_id: &[u32]) -> (res: (Vec<Vec<usize>>, Vec<usize>))
    ensures
        res.1@.len() == group_id@.len(),
        forall|s: int| 0 <= s < res.0@.len() ==> (#[trigger] res.0@[s])@.len() > 0,
        forall|s: int| 0 <= s < res.0@.len() ==> as_ints((#[trigger] res.0@[s])@)
            == rows_of(group_id@, group_id@[res.0@[s]@[0] as int], group_id@.len() as int),
        forall|r: int| 0 <= r < group_id@.len() ==> (#[trigger] res.1@[r]) < res.0@.len()
            && group_id@[res.0@[res.1@[r] as int]@[0] as int] == group_id@[r],
        forall|a: int, b: int| 0 <= a < b < res.0@.len() ==> group_id@[(#[trigger] res.0@[a])@[0] as int] != group_id@[(#[trigger] res.0@[b])@[0] as int],
{
    let n = group_id.len();
    let mut keys: Vec<u32> = Vec::new();
    let mut groups: Vec<Vec<usize>> = Vec::new();
    let mut slot: Vec<usize> = Vec::new();
    let mut i: usize = 0;
    while i < n
        invariant
            n == group_id@.len(),
            i <= n,
            keys@.len() == groups@.len(),
            slot@.len() == i,
            forall|a: int, b: int| 0 <= a < b < keys@.len() ==> keys@[a] != keys@[b],
            forall|s: int| 0 <= s < groups@.len() ==> (#[trigger] groups@[s])@.len() > 0,
            forall|s: int| 0 <= s < groups@.len() ==> group_id@[(#[trigger] groups@[s])@[0] as int] == keys@[s],
            forall|s: int| 0 <= s < groups@.len() ==> as_ints((#[trigger] groups@[s])@)
                == rows_of(group_id@, keys@[s], i as int),
            forall|r: int| 0 <= r < i ==> (#[trigger] slot@[r]) < keys@.len() && keys@[slot@[r] as int] == group_id@[r],
            forall|g: u32| (forall|s: int| 0 <= s < keys@.len() ==> keys@[s] != g) ==> rows_of(group_id@, g, i as int) == Seq::<int>::empty(),
        decreases n - i,
    {
        let g = group_id[i];
        let mut s: usize = 0;
        while s < keys.len() && keys[s] != g
            invariant
                s <= keys@.len(),
                forall|t: int| 0 <= t < s ==> keys@[t] != g,
            decreases keys@.len() - s,
        {
            s += 1;
        }
        let ghost old_groups = groups@;
        let ghost old_keys = keys@;
        if s == keys.len() {
            keys.push(g);
            let mut v: Vec<usize> = Vec::new();
            v.push(i);
            groups.push(v);
            proof {
                assert(rows_of(group_id@, g, i as int) == Seq::<int>::empty());
                assert(as_ints(groups@[s as int]@) =~= rows_of(group_id@, g, i + 1));
            }
        } else {
            let ghost before = groups@[s as int]@;
            groups[s].push(i);
            proof {
                assert(as_ints(groups@[s as int]@) =~= as_ints(before).push(i as int));
            }
        }
        slot.push(s);
        proof {
            assert forall|t: int| 0 <= t < groups@.len() implies as_ints((#[trigger] groups@[t])@)
                == rows_of(group_id@, keys@[t], i + 1) by {
                if t != s {
                    assert(groups@[t] == old_groups[t]);
                    assert(keys@[t] != g);
                }
            }
            let ni = i + 1;
            assert forall|g2: u32| (forall|t: int| 0 <= t < keys@.len() ==> keys@[t] != g2) implies #[trigger] rows_of(group_id@, g2, ni) == Seq::<int>::empty() by {
                assert(keys@[s as int] == g);
                assert forall|t: int| 0 <= t < old_keys.len() implies old_keys[t] != g2 by {
                    assert(keys@[t] == old_keys[t]);
                }
                assert(rows_of(group_id@, g2, i as int) == Seq::<int>::empty());
                assert(g2 != g);
            }
            assert forall|t: int| 0 <= t < groups@.len() implies group_id@[(#[trigger] groups@[t])@[0] as int] == keys@[t] by {
                if t != s || s < old_groups.len() {
                    assert(groups@[t]@[0] == old_groups[t]@[0]);
                }
            }
        }
        i += 1;
    }
    (groups, slot)
}

/// For each entry, the first entry with the same key and state.
fn first_by_key(keys: &Vec<u64>, states: &Vec<State>) -> (first: Vec<usize>)
    requires
        keys@.len() == states@.len(),
    ensures
        first@.len() == keys@.len(),
        forall|k: int| 0 <= k < keys@.len() ==> {
            let j = #[trigger] first@[k] as int;
            &&& j <= k
            &&& keys@[j] == keys@[k]
            &&& states@[j] == states@[k]
            &&& forall|i: int| 0 <= i < j ==> !(keys@[i] == keys@[k] && states@[i] == states@[k])
        },
{
    broadcast use vstd::std_specs::hash::group_hash_axioms;
    let mut rest_map: HashMap<u64, usize> = HashMap::new();
    let mut charge_map: HashMap<u64, usize> = HashMap::new();
    let mut discharge_map: HashMap<u64, usize> = HashMap::new();
    let mut first: Vec<usize> = Vec::new();
    let mut k: usize = 0;
    while k < keys.len()
        invariant
            keys@.len() == states@.len(),
            k <= keys@.len(),
            first@.len() == k,
            forall|m: int| 0 <= m < k ==> {
                let j = #[trigger] first@[m] as int;
                &&& j <= m
                &&& keys@[j] == keys@[m]
                &&& states@[j] == states@[m]
                &&& forall|i: int| 0 <= i < j ==> !(keys@[i] == keys@[m] && states@[i] == states@[m])
            },
            first_index_map(rest_map@, keys@, states@, State::Rest, k as int),
            first_index_map(charge_map@, keys@, states@, State::Charge, k as int),
            first_index_map(discharge_map@, keys@, states@, State::Discharge, k as int),
        decreases keys@.len() - k,
    {
        let key = keys[k];
        let j = match states[k] {
            State::Rest => first_index_in(&mut rest_map, key, k, keys, states, State::Rest),
            State::Charge => first_index_in(&mut charge_map, key, k, keys, states, State::Charge),
            State::Discharge => first_index_in(&mut discharge_map, key, k, keys, states, State::Discharge),
        };
        first.push(j);
        k += 1;
    }
    first
}

/// `m` maps each key met with state `s` among the first `k` entries to the
/// first such entry.
pub open spec fn first_index_map(m: Map<u64, usize>, keys: Seq<u64>, states: Seq<State>, s: State, k: int) -> bool {
    &&& forall|key: u64| #[trigger] m.contains_key(key) <==> exists|i: int| 0 <= i < k && keys[i] == key && states[i] == s
    &&& forall|key: u64| #[trigger] m.contains_key(key) ==> {
        let j = m[key] as int;
        &&& 0 <= j < k
        &&& keys[j] == key
        &&& states[j] == s
        &&& forall|i: int| 0 <= i < j ==> !(keys[i] == key && states[i] == s)
    }
}

/// The first entry with `keys[k]` and state `s` (which entry `k` has),
/// recording `k` where there is none before it.
fn first_index_in(m: &mut HashMap<u64, usize>, key: u64, k: usize, keys: &Vec<u64>, states: &Vec<State>, s: State) -> (j: usize)
    requires
        k < keys@.len() == states@.len(),
        keys@[k as int] == key,
        states@[k as int] == s,
        first_index_map(old(m)@, keys@, states@, s, k as int),
    ensures
        first_index_map(final(m)@, keys@, states@, s, k + 1),
        j <= k,
        keys@[j as int] == key,
        states@[j as int] == s,
        forall|i: int| 0 <= i < j ==> !(keys@[i] == key && states@[i] == s),
{
    broadcast use vstd::std_specs::hash::group_hash_axioms;
    match m.get(&key) {
        Some(v) => {
            let j = *v;
            proof {
                assert(old(m)@.contains_key(key));
                assert forall|key2: u64| #[trigger] m@.contains_key(key2) <==> exists|i: int| 0 <= i < k + 1 && keys@[i] == key2 && states@[i] == s by {
                    if exists|i: int| 0 <= i < k + 1 && keys@[i] == key2 && states@[i] == s {
                        if key2 == key {
                        } else {
                            let i = choose|i: int| 0 <= i < k + 1 && keys@[i] == key2 && states@[i] == s;
                            assert(i < k);
                        }
                    }
                }
            }
            j
        },
        None => {
            m.insert(key, k);
            proof {
                assert forall|key2: u64| #[trigger] m@.contains_key(key2) <==> exists|i: int| 0 <= i < k + 1 && keys@[i] == key2 && states@[i] == s by {
                    if key2 == key {
                        assert(keys@[k as int] == key2 && states@[k as int] == s);
                    } else if exists|i: int| 0 <= i < k + 1 && keys@[i] == key2 && states@[i] == s {
                        let i = choose|i: int| 0 <= i < k + 1 && keys@[i] == key2 && states@[i] == s;
                        assert(i < k);
                    }
                }
                assert forall|i: int| 0 <= i < k implies !(keys@[i] == key && states@[i] == s) by {
                    if keys@[i] == key && states@[i] == s {
                        assert(old(m)@.contains_key(key));
                    }
                }
            }
            k
        },
    }
}

/// The rest id at position `k` of a group's states: 1, plus one for every
/// rest that gives way to an active state up to `k`.
pub open spec fn rest_count(gs: Seq<State>, k: int) -> nat
    decreases k,
{
    if k <= 0 {
        1
    } else {
        rest_count(gs, k - 1) + if gs[k - 1] == State::Rest && gs[k] != State::Rest {
            1nat
        } else {
            0nat
        }
    }
}

/// Position `k` belongs to a rest at the very start of its group, before
/// any active run: idle time, not an interruption.
pub open spec fn leading_rest(gs: Seq<State>, k: int) -> bool {
    gs.len() > 0 && gs[0] == State::Rest && rest_count(gs, k) == 1
}

/// Position `k` is dropped as part of an unrested reversal.
pub open spec fn reversal_drop(gs: Seq<State>, k: int, drop: bool) -> bool {
    drop && in_unrested_reversal(gs, k)
}

/// Position `k` survives the leading-rest and reversal passes.
pub open spec fn kept_first(gs: Seq<State>, k: int, drop: bool) -> bool {
    !leading_rest(gs, k) && !reversal_drop(gs, k, drop)
}

/// The last position below `n` that survives the first two passes (-1 if none).
pub open spec fn last_kept(gs: Seq<State>, drop: bool, n: int) -> int
    decreases n,
{
    if n <= 0 {
        -1
    } else if kept_first(gs, n - 1, drop) {
        n - 1
    } else {
        last_kept(gs, drop, n - 1)
    }
}

/// Position `k` is part of the group's final active step, which ends the
/// group unfinished: its rows after the first two passes share the rest id
/// of the last surviving row, which is active.
pub open spec fn incomplete_final(gs: Seq<State>, k: int, drop: bool) -> bool {
    let l = last_kept(gs, drop, gs.len() as int);
    &&& l >= 0
    &&& gs[l] != State::Rest
    &&& kept_first(gs, k, drop)
    &&& rest_count(gs, k) == rest_count(gs, l)
}

/// Position `k` survives all three passes.
pub open spec fn kept(gs: Seq<State>, k: int, drop: bool) -> bool {
    kept_first(gs, k, drop) && !incomplete_final(gs, k, drop)
}

proof fn lemma_rest_count_bound(gs: Seq<State>, k: int)
    requires
        0 <= k,
    ensures
        rest_count(gs, k) <= k + 1,
    decreases k,
{
    if k > 0 {
        lemma_rest_count_bound(gs, k - 1);
    }
}

/// The passes over one group's states: rest ids, and which positions are
/// dropped as a leading rest, as an unrested reversal (when enabled) and
/// as the incomplete final step.
fn plan_group(gs: &Vec<State>, drop: bool) -> (res: (Vec<u32>, Vec<bool>, Vec<bool>, Vec<bool>))
    requires
        gs@.len() < u32::MAX,
    ensures
        res.0@.len() == gs@.len() && res.1@.len() == gs@.len(),
        res.2@.len() == gs@.len() && res.3@.len() == gs@.len(),
        forall|k: int| 0 <= k < gs@.len() ==> {
            &&& #[trigger] res.0@[k] == rest_count(gs@, k)
            &&& res.1@[k] == leading_rest(gs@, k)
            &&& res.2@[k] == reversal_drop(gs@, k, drop)
            &&& res.3@[k] == incomplete_final(gs@, k, drop)
        },
{
    let n = gs.len();
    let mut rest: Vec<u32> = Vec::new();
    let mut r: u32 = 1;
    let mut k: usize = 0;
    while k < n
        invariant
            n == gs@.len(),
            n < u32::MAX,
            k <= n,
            rest@.len() == k,
            forall|m: int| 0 <= m < k ==> #[trigger] rest@[m] == rest_count(gs@, m),
            k > 0 ==> r == rest_count(gs@, k - 1),
            k == 0 ==> r == 1,
        decreases n - k,
    {
        proof {
            lemma_rest_count_bound(gs@, k as int);
        }
        if k > 0 && gs[k - 1] == State::Rest && gs[k] != State::Rest {
            r += 1;
        }
        rest.push(r);
        k += 1;
    }
    let starts_rest = n > 0 && gs[0] == State::Rest;
    let mut leading: Vec<bool> = Vec::new();
    let mut k: usize = 0;
    while k < n
        invariant
            n == gs@.len(),
            rest@.len() == n,
            forall|m: int| 0 <= m < n ==> #[trigger] rest@[m] == rest_count(gs@, m),
            starts_rest == (n > 0 && gs@[0] == State::Rest),
            k <= n,
            leading@.len() == k,
            forall|m: int| 0 <= m < k ==> #[trigger] leading@[m] == leading_rest(gs@, m),
        decreases n - k,
    {
        leading.push(starts_rest && rest[k] == 1);
        k += 1;
    }
    let reversal = if drop {
        find_unrested_reversal_rows(gs.as_slice())
    } else {
        let mut none: Vec<bool> = Vec::new();
        let mut k: usize = 0;
        while k < n
            invariant
                k <= n,
                none@.len() == k,
                forall|m: int| 0 <= m < k ==> !#[trigger] none@[m],
            decreases n - k,
        {
            none.push(false);
            k += 1;
        }
        none
    };
    let mut last: usize = n;
    let mut k: usize = n;
    while k > 0
        invariant
            n == gs@.len(),
            k <= n,
            leading@.len() == n && reversal@.len() == n,
            forall|m: int| 0 <= m < n ==> #[trigger] leading@[m] == leading_rest(gs@, m),
            forall|m: int| 0 <= m < n ==> #[trigger] reversal@[m] == reversal_drop(gs@, m, drop),
            last_kept(gs@, drop, n as int) == (if last == n { last_kept(gs@, drop, k as int) } else { last as int }),
            last == n || last < n,
        decreases k,
    {
        if last == n && !leading[k - 1] && !reversal[k - 1] {
            last = k - 1;
        }
        k -= 1;
    }
    let mut incomplete: Vec<bool> = Vec::new();
    let final_active = last < n && gs[last] != State::Rest;
    let mut k: usize = 0;
    while k < n
        invariant
            n == gs@.len(),
            k <= n,
            rest@.len() == n && leading@.len() == n && reversal@.len() == n,
            forall|m: int| 0 <= m < n ==> #[trigger] rest@[m] == rest_count(gs@, m),
            forall|m: int| 0 <= m < n ==> #[trigger] leading@[m] == leading_rest(gs@, m),
            forall|m: int| 0 <= m < n ==> #[trigger] reversal@[m] == reversal_drop(gs@, m, drop),
            last_kept(gs@, drop, n as int) == (if last == n { -1 } else { last as int }),
            last <= n,
            final_active == (last < n && gs@[last as int] != State::Rest),
            incomplete@.len() == k,
            forall|m: int| 0 <= m < k ==> #[trigger] incomplete@[m] == incomplete_final(gs@, m, drop),
        decreases n - k,
    {
        let v = final_active && !leading[k] && !reversal[k] && rest[k] == rest[last];
        proof {
            let l = last_kept(gs@, drop, gs@.len() as int);
            assert(kept_first(gs@, k as int, drop) == (!leading@[k as int] && !reversal@[k as int]));
            if last < n {
                assert(rest@[last as int] == rest_count(gs@, last as int));
                assert(l == last);
                assert(rest@[k as int] == rest_count(gs@, k as int));
            } else {
                assert(l == -1);
            }
            assert(v == incomplete_final(gs@, k as int, drop));
        }
        incomplete.push(v);
        k += 1;
    }
    (rest, leading, reversal, incomplete)
}

/// Row numbers as integers.
pub open spec fn as_ints(v: Seq<usize>) -> Seq<int> {
    v.map_values(|i: usize| i as int)
}

/// The states of the given rows.
pub open spec fn states_at(rows: Seq<int>, st: Seq<State>) -> Seq<State> {
    rows.map_values(|i: int| st[i])
}

/// The keys of the given rows.
pub open spec fn keys_at(rows: Seq<int>, keys: Seq<u64>) -> Seq<u64> {
    rows.map_values(|i: int| keys[i])
}

/// The states of row `r`'s group.
pub open spec fn gstates(gid: Seq<u32>, st: Seq<State>, r: int) -> Seq<State> {
    states_at(grows(gid, r), st)
}

/// The keys of row `r`'s group.
pub open spec fn gkeys(gid: Seq<u32>, keys: Seq<u64>, r: int) -> Seq<u64> {
    keys_at(grows(gid, r), keys)
}

/// The rest ids of a group's positions as keys.
pub open spec fn rest_keys(gs: Seq<State>) -> Seq<u64> {
    Seq::new(gs.len(), |i: int| rest_count(gs, i) as u64)
}

/// `j` is the first position with the key and state of position `k`.
pub open spec fn is_first_same(keys: Seq<u64>, gs: Seq<State>, k: int, j: int) -> bool {
    &&& 0 <= j <= k
    &&& keys[j] == keys[k]
    &&& gs[j] == gs[k]
    &&& forall|i: int| 0 <= i < j ==> !(keys[i] == keys[k] && gs[i] == gs[k])
}

/// How many of the first `n` rows satisfy `p`.
pub open spec fn count_where(n: int, p: spec_fn(int) -> bool) -> nat
    decreases n,
{
    if n <= 0 {
        0
    } else {
        count_where(n - 1, p) + if p(n - 1) {
            1nat
        } else {
            0nat
        }
    }
}

/// How many rows were dropped, by reason.
#[derive(Debug, Clone, Default)]
pub struct SegmentLog {
    pub reversal_rows_dropped: usize,
    pub incomplete_final_rows_dropped: usize,
    /// Rows of a rest at the very start of a group's data, before any
    /// active run: idle time before cycling started, not an interruption.
    pub leading_rest_rows_dropped: usize,
}

/// What segmentation decides for every input row: its rest id, whether it
/// is kept, and the rows its step time and its charge are measured from.
#[derive(Debug, Clone)]
pub struct SegmentPlan {
    pub rest: Vec<u32>,
    pub keep: Vec<bool>,
    pub step_anchor: Vec<usize>,
    pub charge_anchor: Vec<usize>,
}

/// Per-row outcome of the passes, with the reason flags.
struct RowPlan {
    rest: Vec<u32>,
    keep: Vec<bool>,
    leading: Vec<bool>,
    reversal: Vec<bool>,
    incomplete: Vec<bool>,
    step_anchor: Vec<usize>,
    charge_anchor: Vec<usize>,
}

/// Row `r` of the plan holds what the passes decide for it.
pub open spec fn row_planned(
    gid: Seq<u32>,
    st: Seq<State>,
    cyc: Seq<u64>,
    drop: bool,
    rest: Seq<u32>,
    keep: Seq<bool>,
    step_anchor: Seq<usize>,
    charge_anchor: Seq<usize>,
    r: int,
) -> bool {
    let gs = gstates(gid, st, r);
    let k = gpos(gid, r);
    &&& rest[r] == rest_count(gs, k)
    &&& keep[r] == kept(gs, k, drop)
    &&& step_anchor[r] < gid.len() && gid[step_anchor[r] as int] == gid[r]
    &&& is_first_same(rest_keys(gs), gs, k, gpos(gid, step_anchor[r] as int))
    &&& charge_anchor[r] < gid.len() && gid[charge_anchor[r] as int] == gid[r]
    &&& is_first_same(gkeys(gid, cyc, r), gs, k, gpos(gid, charge_anchor[r] as int))
}

/// The reason flags of row `r` are the passes' own.
pub open spec fn row_flagged(gid: Seq<u32>, st: Seq<State>, drop: bool, leading: Seq<bool>, reversal: Seq<bool>, incomplete: Seq<bool>, r: int) -> bool {
    let gs = gstates(gid, st, r);
    let k = gpos(gid, r);
    &&& leading[r] == leading_rest(gs, k)
    &&& reversal[r] == reversal_drop(gs, k, drop)
    &&& incomplete[r] == incomplete_final(gs, k, drop)
}

fn filled<T: Copy>(n: usize, v: T) -> (out: Vec<T>)
    ensures
        out@.len() == n,
        forall|i: int| 0 <= i < n ==> #[trigger] out@[i] == v,
{
    let mut out: Vec<T> = Vec::new();
    let mut i: usize = 0;
    while i < n
        invariant
            i <= n,
            out@.len() == i,
            forall|k: int| 0 <= k < i ==> #[trigger] out@[k] == v,
        decreases n - i,
    {
        out.push(v);
        i += 1;
    }
    out
}

/// Two positions of a group's strictly ascending rows hold the same row
/// only if they are the same position.
proof fn lemma_position_unique(gid: Seq<u32>, r: int, k: int)
    requires
        0 <= r < gid.len(),
        0 <= k < grows(gid, r).len(),
        grows(gid, r)[k] == r,
    ensures
        k == gpos(gid, r),
{
    lemma_row_position(gid, r);
    lemma_rows_of(gid, gid[r], gid.len() as int);
    let p = gpos(gid, r);
    let rows = grows(gid, r);
    if k < p {
        assert(rows[k] < rows[p]);
    } else if p < k {
        assert(rows[p] < rows[k]);
    }
}

/// The outcome of the passes at each position of one group.
struct GroupOutcome {
    rest: Vec<u32>,
    leading: Vec<bool>,
    reversal: Vec<bool>,
    incomplete: Vec<bool>,
    step_first: Vec<usize>,
    charge_first: Vec<usize>,
}

/// The rows of the group whose first row is `rows[0]`.
pub open spec fn group_of(gid: Seq<u32>, rows: Seq<usize>) -> Seq<int> {
    rows_of(gid, gid[rows[0] as int], gid.len() as int)
}

spec fn outcome_lens(out: GroupOutcome, m: int) -> bool {
    &&& out.rest@.len() == m && out.leading@.len() == m && out.reversal@.len() == m
    &&& out.incomplete@.len() == m && out.step_first@.len() == m && out.charge_first@.len() == m
}

spec fn outcome_at(out: GroupOutcome, gs: Seq<State>, ck: Seq<u64>, drop: bool, j: int) -> bool {
    &&& out.rest@[j] == rest_count(gs, j)
    &&& out.leading@[j] == leading_rest(gs, j)
    &&& out.reversal@[j] == reversal_drop(gs, j, drop)
    &&& out.incomplete@[j] == incomplete_final(gs, j, drop)
    &&& is_first_same(rest_keys(gs), gs, j, out.step_first@[j] as int)
    &&& is_first_same(ck, gs, j, out.charge_first@[j] as int)
}

/// Runs the passes over the group whose rows are `rows`.
#[verifier::rlimit(40)]
fn group_outcome(rows: &Vec<usize>, group_id: &[u32], state: &[State], cyc_key: &[u64], drop: bool) -> (out: GroupOutcome)
    requires
        rows@.len() > 0,
        as_ints(rows@) == rows_of(group_id@, group_id@[rows@[0] as int], group_id@.len() as int),
        group_id@.len() == state@.len() == cyc_key@.len(),
        group_id@.len() < u32::MAX,
    ensures
        outcome_lens(out, rows@.len() as int),
        forall|j: int| 0 <= j < rows@.len() ==> #[trigger] outcome_at(out, states_at(group_of(group_id@, rows@), state@),
            keys_at(group_of(group_id@, rows@), cyc_key@), drop, j),
{
    let ghost gid = group_id@;
    let ghost n = gid.len() as int;
    let ghost g = gid[rows@[0] as int];
    let ghost grp = rows_of(gid, g, n);
    proof {
        lemma_rows_of(gid, g, n);
        lemma_rows_of_len(gid, g, n);
        assert(rows@.len() == as_ints(rows@).len());
        assert forall|k: int| 0 <= k < rows@.len() implies #[trigger] rows@[k] < n by {
            assert(as_ints(rows@)[k] == grp[k]);
        }
    }
    let m = rows.len();
    let mut gs: Vec<State> = Vec::new();
    let mut ck: Vec<u64> = Vec::new();
    let mut k: usize = 0;
    while k < m
        invariant
            m == rows@.len(),
            m <= n < u32::MAX,
            k <= m,
            forall|j: int| 0 <= j < m ==> #[trigger] rows@[j] < n,
            n == group_id@.len() == state@.len() == cyc_key@.len(),
            gs@.len() == k && ck@.len() == k,
            forall|j: int| 0 <= j < k ==> #[trigger] gs@[j] == state@[rows@[j] as int],
            forall|j: int| 0 <= j < k ==> #[trigger] ck@[j] == cyc_key@[rows@[j] as int],
        decreases m - k,
    {
        gs.push(state[rows[k]]);
        ck.push(cyc_key[rows[k]]);
        k += 1;
    }
    assert(gs@ =~= states_at(grp, state@)) by {
        assert forall|j: int| 0 <= j < m implies gs@[j] == states_at(grp, state@)[j] by {
            assert(as_ints(rows@)[j] == grp[j]);
        }
    }
    assert(ck@ =~= keys_at(grp, cyc_key@)) by {
        assert forall|j: int| 0 <= j < m implies ck@[j] == keys_at(grp, cyc_key@)[j] by {
            assert(as_ints(rows@)[j] == grp[j]);
        }
    }
    let (rest, leading, reversal, incomplete) = plan_group(&gs, drop);
    let mut rk: Vec<u64> = Vec::new();
    let mut k: usize = 0;
    while k < m
        invariant
            m == gs@.len() == rest@.len(),
            k <= m,
            rk@.len() == k,
            forall|j: int| 0 <= j < m ==> #[trigger] rest@[j] == rest_count(gs@, j),
            forall|j: int| 0 <= j < k ==> #[trigger] rk@[j] == rest_count(gs@, j) as u64,
        decreases m - k,
    {
        rk.push(rest[k] as u64);
        k += 1;
    }
    assert(rk@ =~= rest_keys(gs@));
    let step_first = first_by_key(&rk, &gs);
    let charge_first = first_by_key(&ck, &gs);
    proof {
        assert forall|j: int| 0 <= j < m implies {
            &&& #[trigger] rest@[j] == rest_count(gs@, j)
            &&& leading@[j] == leading_rest(gs@, j)
            &&& reversal@[j] == reversal_drop(gs@, j, drop)
            &&& incomplete@[j] == incomplete_final(gs@, j, drop)
            &&& is_first_same(rest_keys(gs@), gs@, j, step_first@[j] as int)
            &&& is_first_same(ck@, gs@, j, charge_first@[j] as int)
        } by {
            assert(rest@[j] == rest_count(gs@, j));
            assert(step_first@[j] <= j);
            assert(charge_first@[j] <= j);
        }
        assert(gs@ == states_at(grp, state@));
        assert(ck@ == keys_at(grp, cyc_key@));
        assert(rest@.len() == m && leading@.len() == m && reversal@.len() == m);
        assert(incomplete@.len() == m && step_first@.len() == m && charge_first@.len() == m);
    }
    let out = GroupOutcome { rest, leading, reversal, incomplete, step_first, charge_first };
    proof {
        assert(grp == group_of(group_id@, rows@));
        assert forall|j: int| 0 <= j < rows@.len() implies #[trigger] outcome_at(out, states_at(group_of(group_id@, rows@), state@),
            keys_at(group_of(group_id@, rows@), cyc_key@), drop, j) by {
            assert(out.rest@[j] == rest_count(gs@, j));
        }
    }
    out
}

/// Runs the passes over one group, whose rows are `rows`, and records
/// the outcome for each of its rows.
#[verifier::rlimit(100)]
#[verifier::spinoff_prover]
fn apply_group(
    rows: &Vec<usize>,
    group_id: &[u32],
    state: &[State],
    cyc_key: &[u64],
    drop: bool,
    plan: &mut RowPlan,
)
    requires
        rows@.len() > 0,
        as_ints(rows@) == rows_of(group_id@, group_id@[rows@[0] as int], group_id@.len() as int),
        group_id@.len() == state@.len() == cyc_key@.len(),
        group_id@.len() < u32::MAX,
        old(plan).rest@.len() == group_id@.len() && old(plan).keep@.len() == group_id@.len(),
        old(plan).leading@.len() == group_id@.len() && old(plan).reversal@.len() == group_id@.len(),
        old(plan).incomplete@.len() == group_id@.len(),
        old(plan).step_anchor@.len() == group_id@.len() && old(plan).charge_anchor@.len() == group_id@.len(),
    ensures
        final(plan).rest@.len() == group_id@.len() && final(plan).keep@.len() == group_id@.len(),
        final(plan).leading@.len() == group_id@.len() && final(plan).reversal@.len() == group_id@.len(),
        final(plan).incomplete@.len() == group_id@.len(),
        final(plan).step_anchor@.len() == group_id@.len() && final(plan).charge_anchor@.len() == group_id@.len(),
        forall|r: int| 0 <= r < group_id@.len() && #[trigger] group_id@[r] == group_id@[rows@[0] as int] ==> {
            &&& row_planned(group_id@, state@, cyc_key@, drop, final(plan).rest@, final(plan).keep@,
                final(plan).step_anchor@, final(plan).charge_anchor@, r)
            &&& row_flagged(group_id@, state@, drop, final(plan).leading@, final(plan).reversal@, final(plan).incomplete@, r)
        },
        forall|r: int| 0 <= r < group_id@.len() && #[trigger] group_id@[r] != group_id@[rows@[0] as int] ==> {
            &&& final(plan).rest@[r] == old(plan).rest@[r]
            &&& final(plan).keep@[r] == old(plan).keep@[r]
            &&& final(plan).leading@[r] == old(plan).leading@[r]
            &&& final(plan).reversal@[r] == old(plan).reversal@[r]
            &&& final(plan).incomplete@[r] == old(plan).incomplete@[r]
            &&& final(plan).step_anchor@[r] == old(plan).step_anchor@[r]
            &&& final(plan).charge_anchor@[r] == old(plan).charge_anchor@[r]
        },
{
    let ghost gid = group_id@;
    let ghost n = gid.len() as int;
    let ghost g = gid[rows@[0] as int];
    let ghost grp = rows_of(gid, g, n);
    let ghost gs = states_at(grp, state@);
    let ghost ck = keys_at(grp, cyc_key@);
    proof {
        lemma_rows_of(gid, g, n);
        assert(rows@.len() == as_ints(rows@).len());
        assert forall|k: int| 0 <= k < rows@.len() implies #[trigger] rows@[k] < n && gid[rows@[k] as int] == g by {
            assert(as_ints(rows@)[k] == grp[k]);
        }
    }
    let out = group_outcome(rows, group_id, state, cyc_key, drop);
    assert(grp == group_of(group_id@, rows@));
    assert(gs == states_at(group_of(group_id@, rows@), state@));
    assert(ck == keys_at(group_of(group_id@, rows@), cyc_key@));
    let m = rows.len();
    let ghost start = *plan;
    let mut k: usize = 0;
    while k < m
        invariant
            m == rows@.len(),
            outcome_lens(out, m as int),
            k <= m,
            n == group_id@.len() == state@.len() == cyc_key@.len(),
            gid == group_id@,
            g == gid[rows@[0] as int],
            grp == rows_of(gid, g, n),
            as_ints(rows@) == grp,
            forall|j: int| 0 <= j < m ==> #[trigger] rows@[j] < n && gid[rows@[j] as int] == g,
            gs == states_at(grp, state@),
            ck == keys_at(grp, cyc_key@),
            grp == group_of(gid, rows@),
            forall|j: int| 0 <= j < m ==> #[trigger] outcome_at(out, gs, ck, drop, j),
            plan.rest@.len() == n && plan.keep@.len() == n && plan.leading@.len() == n,
            plan.reversal@.len() == n && plan.incomplete@.len() == n,
            plan.step_anchor@.len() == n && plan.charge_anchor@.len() == n,
            forall|j: int| 0 <= j < k ==> {
                &&& row_planned(gid, state@, cyc_key@, drop, plan.rest@, plan.keep@, plan.step_anchor@, plan.charge_anchor@, #[trigger] rows@[j] as int)
                &&& row_flagged(gid, state@, drop, plan.leading@, plan.reversal@, plan.incomplete@, rows@[j] as int)
            },
            forall|r: int| 0 <= r < n && !(exists|j: int| 0 <= j < k && #[trigger] rows@[j] == r) ==> {
                &&& plan.rest@[r] == start.rest@[r]
                &&& plan.keep@[r] == start.keep@[r]
                &&& plan.leading@[r] == start.leading@[r]
                &&& plan.reversal@[r] == start.reversal@[r]
                &&& plan.incomplete@[r] == start.incomplete@[r]
                &&& plan.step_anchor@[r] == start.step_anchor@[r]
                &&& plan.charge_anchor@[r] == start.charge_anchor@[r]
            },
        decreases m - k,
    {
        assert(outcome_at(out, gs, ck, drop, k as int));
        let row = rows[k];
        let sa = rows[out.step_first[k]];
        let ca = rows[out.charge_first[k]];
        proof {
            assert(as_ints(rows@)[k as int] == grp[k as int]);
            assert(grows(gid, row as int) == grp);
            lemma_position_unique(gid, row as int, k as int);
            let js = out.step_first@[k as int] as int;
            let jc = out.charge_first@[k as int] as int;
            assert(as_ints(rows@)[js] == grp[js]);
            assert(as_ints(rows@)[jc] == grp[jc]);
            assert(grows(gid, sa as int) == grp);
            assert(grows(gid, ca as int) == grp);
            lemma_position_unique(gid, sa as int, js);
            lemma_position_unique(gid, ca as int, jc);
            assert(gstates(gid, state@, row as int) == gs);
            assert(gkeys(gid, cyc_key@, row as int) == ck);
        }
        plan.rest.set(row, out.rest[k]);
        plan.keep.set(row, !out.leading[k] && !out.reversal[k] && !out.incomplete[k]);
        plan.leading.set(row, out.leading[k]);
        plan.reversal.set(row, out.reversal[k]);
        plan.incomplete.set(row, out.incomplete[k]);
        plan.step_anchor.set(row, sa);
        plan.charge_anchor.set(row, ca);
        proof {
            assert forall|j: int| 0 <= j < k + 1 implies {
                &&& row_planned(gid, state@, cyc_key@, drop, plan.rest@, plan.keep@, plan.step_anchor@, plan.charge_anchor@, #[trigger] rows@[j] as int)
                &&& row_flagged(gid, state@, drop, plan.leading@, plan.reversal@, plan.incomplete@, rows@[j] as int)
            } by {
                if j < k {
                    if rows@[j] == row {
                        assert(as_ints(rows@)[j] == grp[j]);
                        assert(grp[j] == grp[k as int]);
                        lemma_position_unique(gid, row as int, j);
                    }
                }
            }
        }
        k += 1;
    }
    proof {
        assert forall|r: int| 0 <= r < n && #[trigger] gid[r] == g implies {
            &&& row_planned(gid, state@, cyc_key@, drop, plan.rest@, plan.keep@, plan.step_anchor@, plan.charge_anchor@, r)
            &&& row_flagged(gid, state@, drop, plan.leading@, plan.reversal@, plan.incomplete@, r)
        } by {
            lemma_row_position(gid, r);
            let p = gpos(gid, r);
            assert(as_ints(rows@)[p] == grp[p]);
            assert(rows@[p] == r);
        }
        assert forall|r: int| 0 <= r < n && #[trigger] gid[r] != g implies !(exists|j: int| 0 <= j < m && #[trigger] rows@[j] == r) by {
            if exists|j: int| 0 <= j < m && #[trigger] rows@[j] == r {
                let j = choose|j: int| 0 <= j < m && #[trigger] rows@[j] == r;
                assert(gid[rows@[j] as int] == g);
            }
        }
    }
}

/// How many of the first `n` rows are dropped as a leading rest.
pub open spec fn count_leading(gid: Seq<u32>, st: Seq<State>, n: int) -> nat
    decreases n,
{
    if n <= 0 {
        0
    } else {
        count_leading(gid, st, n - 1) + if leading_rest(gstates(gid, st, n - 1), gpos(gid, n - 1)) {
            1nat
        } else {
            0nat
        }
    }
}

/// How many of the first `n` rows are dropped as an unrested reversal.
pub open spec fn count_reversal(gid: Seq<u32>, st: Seq<State>, drop: bool, n: int) -> nat
    decreases n,
{
    if n <= 0 {
        0
    } else {
        count_reversal(gid, st, drop, n - 1) + if reversal_drop(gstates(gid, st, n - 1), gpos(gid, n - 1), drop) {
            1nat
        } else {
            0nat
        }
    }
}

/// How many of the first `n` rows are dropped as an incomplete final step.
pub open spec fn count_incomplete(gid: Seq<u32>, st: Seq<State>, drop: bool, n: int) -> nat
    decreases n,
{
    if n <= 0 {
        0
    } else {
        count_incomplete(gid, st, drop, n - 1) + if incomplete_final(gstates(gid, st, n - 1), gpos(gid, n - 1), drop) {
            1nat
        } else {
            0nat
        }
    }
}

proof fn lemma_count_bounds(gid: Seq<u32>, st: Seq<State>, drop: bool, n: int)
    requires
        0 <= n,
    ensures
        count_leading(gid, st, n) <= n,
        count_reversal(gid, st, drop, n) <= n,
        count_incomplete(gid, st, drop, n) <= n,
    decreases n,
{
    if n > 0 {
        lemma_count_bounds(gid, st, drop, n - 1);
    }
}

/// How many of the first `n` entries of `keep` are set: the rows kept.
pub open spec fn kept_count(keep: Seq<bool>, n: int) -> nat
    decreases n,
{
    if n <= 0 {
        0
    } else {
        kept_count(keep, n - 1) + if keep[n - 1] { 1nat } else { 0nat }
    }
}

/// An active position of a group that starts with a rest carries a rest id
/// of at least 2.
proof fn lemma_active_after_leading_rest(gs: Seq<State>, k: int)
    requires
        0 <= k < gs.len(),
        gs[0] == State::Rest,
        gs[k] != State::Rest,
    ensures
        rest_count(gs, k) >= 2,
    decreases k,
{
    lemma_rest_count_monotone(gs, 0, k - 1);
    if gs[k - 1] != State::Rest {
        lemma_active_after_leading_rest(gs, k - 1);
    }
}

/// Each position is kept or dropped for exactly one of the three reasons.
proof fn lemma_one_fate(gs: Seq<State>, k: int, drop: bool)
    requires
        0 <= k < gs.len(),
    ensures
        (if leading_rest(gs, k) { 1int } else { 0int }) + (if reversal_drop(gs, k, drop) { 1int } else { 0int })
            + (if incomplete_final(gs, k, drop) { 1int } else { 0int }) + (if kept(gs, k, drop) { 1int } else { 0int }) == 1,
{
    if reversal_drop(gs, k, drop) {
        lemma_reversal_rows_active(gs, k);
        if gs[0] == State::Rest {
            lemma_active_after_leading_rest(gs, k);
        }
    }
}

/// Over the first `n` rows, the rows dropped for each reason and the rows
/// kept add up to `n`.
proof fn lemma_fates_add_up(gid: Seq<u32>, st: Seq<State>, drop: bool, keep: Seq<bool>, n: int)
    requires
        0 <= n <= gid.len() == st.len() == keep.len(),
        forall|r: int| 0 <= r < gid.len() ==> #[trigger] keep[r] == kept(gstates(gid, st, r), gpos(gid, r), drop),
    ensures
        count_leading(gid, st, n) + count_reversal(gid, st, drop, n) + count_incomplete(gid, st, drop, n)
            + kept_count(keep, n) == n,
    decreases n,
{
    if n > 0 {
        lemma_fates_add_up(gid, st, drop, keep, n - 1);
        let r = n - 1;
        lemma_row_position(gid, r);
        assert(keep[r] == kept(gstates(gid, st, r), gpos(gid, r), drop));
        lemma_one_fate(gstates(gid, st, r), gpos(gid, r), drop);
    }
}

/// Segments a cycling record given each row's group and state, and the
/// key (the cycle number's bit pattern) its charge is anchored by: within
/// each group (rows in input order), rest ids count up at every rest that
/// gives way to an active state; a rest starting a group, the runs of an
/// unrested reversal (when `drop_unrested_reversals`) and a final active
/// step that the group ends in are dropped. A row's step time is measured
/// from the first row of its group with its rest id and state, its charge
/// from the first with its cycle key and state.
pub fn plan_segments(group_id: &[u32], state: &[State], cyc_key: &[u64], drop_unrested_reversals: bool) -> (res: (SegmentPlan, SegmentLog))
    requires
        group_id@.len() == state@.len() == cyc_key@.len(),
        group_id@.len() < u32::MAX,
    ensures
        res.0.rest@.len() == group_id@.len() && res.0.keep@.len() == group_id@.len(),
        res.0.step_anchor@.len() == group_id@.len() && res.0.charge_anchor@.len() == group_id@.len(),
        forall|r: int| 0 <= r < group_id@.len() ==> #[trigger] row_planned(group_id@, state@, cyc_key@,
            drop_unrested_reversals, res.0.rest@, res.0.keep@, res.0.step_anchor@, res.0.charge_anchor@, r),
        res.1.leading_rest_rows_dropped == count_leading(group_id@, state@, group_id@.len() as int),
        res.1.reversal_rows_dropped == count_reversal(group_id@, state@, drop_unrested_reversals, group_id@.len() as int),
        res.1.incomplete_final_rows_dropped == count_incomplete(group_id@, state@, drop_unrested_reversals, group_id@.len() as int),
        res.1.leading_rest_rows_dropped + res.1.reversal_rows_dropped + res.1.incomplete_final_rows_dropped
            == group_id@.len() - kept_count(res.0.keep@, group_id@.len() as int),
{
    let n = group_id.len();
    let drop = drop_unrested_reversals;
    let (groups, slot) = group_indices(group_id);
    let mut plan = RowPlan {
        rest: filled(n, 0u32),
        keep: filled(n, false),
        leading: filled(n, false),
        reversal: filled(n, false),
        incomplete: filled(n, false),
        step_anchor: filled(n, 0usize),
        charge_anchor: filled(n, 0usize),
    };
    let mut s: usize = 0;
    while s < groups.len()
        invariant
            n == group_id@.len() == state@.len() == cyc_key@.len(),
            n < u32::MAX,
            s <= groups@.len(),
            slot@.len() == n,
            forall|t: int| 0 <= t < groups@.len() ==> (#[trigger] groups@[t])@.len() > 0,
            forall|t: int| 0 <= t < groups@.len() ==> as_ints((#[trigger] groups@[t])@)
                == rows_of(group_id@, group_id@[groups@[t]@[0] as int], group_id@.len() as int),
            forall|r: int| 0 <= r < n ==> (#[trigger] slot@[r]) < groups@.len()
                && group_id@[groups@[slot@[r] as int]@[0] as int] == group_id@[r],
            forall|a: int, b: int| 0 <= a < b < groups@.len() ==> group_id@[(#[trigger] groups@[a])@[0] as int] != group_id@[(#[trigger] groups@[b])@[0] as int],
            plan.rest@.len() == n && plan.keep@.len() == n && plan.leading@.len() == n,
            plan.reversal@.len() == n && plan.incomplete@.len() == n,
            plan.step_anchor@.len() == n && plan.charge_anchor@.len() == n,
            forall|r: int| 0 <= r < n && #[trigger] slot@[r] < s ==> {
                &&& row_planned(group_id@, state@, cyc_key@, drop, plan.rest@, plan.keep@, plan.step_anchor@, plan.charge_anchor@, r)
                &&& row_flagged(group_id@, state@, drop, plan.leading@, plan.reversal@, plan.incomplete@, r)
            },
        decreases groups@.len() - s,
    {
        let ghost before = plan;
        apply_group(&groups[s], group_id, state, cyc_key, drop, &mut plan);
        proof {
            assert forall|r: int| 0 <= r < n && #[trigger] slot@[r] < s + 1 implies {
                &&& row_planned(group_id@, state@, cyc_key@, drop, plan.rest@, plan.keep@, plan.step_anchor@, plan.charge_anchor@, r)
                &&& row_flagged(group_id@, state@, drop, plan.leading@, plan.reversal@, plan.incomplete@, r)
            } by {
                let t = slot@[r] as int;
                if t < s {
                    assert(group_id@[groups@[t]@[0] as int] != group_id@[groups@[s as int]@[0] as int]);
                    assert(group_id@[r] != group_id@[groups@[s as int]@[0] as int]);
                }
            }
        }
        s += 1;
    }
    assert forall|r: int| 0 <= r < n implies #[trigger] row_planned(group_id@, state@, cyc_key@,
        drop, plan.rest@, plan.keep@, plan.step_anchor@, plan.charge_anchor@, r) by {
        assert(slot@[r] < groups@.len());
    }
    let mut leading_n: usize = 0;
    let mut reversal_n: usize = 0;
    let mut incomplete_n: usize = 0;
    let mut r: usize = 0;
    while r < n
        invariant
            n == group_id@.len() == state@.len(),
            r <= n,
            slot@.len() == n,
            plan.leading@.len() == n && plan.reversal@.len() == n && plan.incomplete@.len() == n,
            forall|q: int| 0 <= q < n ==> (#[trigger] slot@[q]) < groups@.len(),
            forall|q: int| 0 <= q < n && #[trigger] slot@[q] < groups@.len() ==>
                row_flagged(group_id@, state@, drop, plan.leading@, plan.reversal@, plan.incomplete@, q),
            leading_n == count_leading(group_id@, state@, r as int),
            reversal_n == count_reversal(group_id@, state@, drop, r as int),
            incomplete_n == count_incomplete(group_id@, state@, drop, r as int),
        decreases n - r,
    {
        proof {
            lemma_count_bounds(group_id@, state@, drop, r as int);
            assert(slot@[r as int] < groups@.len());
            assert(row_flagged(group_id@, state@, drop, plan.leading@, plan.reversal@, plan.incomplete@, r as int));
        }
        if plan.leading[r] {
            leading_n += 1;
        }
        if plan.reversal[r] {
            reversal_n += 1;
        }
        if plan.incomplete[r] {
            incomplete_n += 1;
        }
        r += 1;
    }
    proof {
        assert forall|q: int| 0 <= q < n implies #[trigger] plan.keep@[q] == kept(gstates(group_id@, state@, q), gpos(group_id@, q), drop) by {
            assert(row_planned(group_id@, state@, cyc_key@, drop, plan.rest@, plan.keep@, plan.step_anchor@, plan.charge_anchor@, q));
        }
        lemma_fates_add_up(group_id@, state@, drop, plan.keep@, n as int);
    }
    let RowPlan { rest, keep, leading: _, reversal: _, incomplete: _, step_anchor, charge_anchor } = plan;
    (
        SegmentPlan { rest, keep, step_anchor, charge_anchor },
        SegmentLog {
            reversal_rows_dropped: reversal_n,
            incomplete_final_rows_dropped: incomplete_n,
            leading_rest_rows_dropped: leading_n,
        },
    )
}

/// Rest ids never decrease along a group's rows: a later position of the
/// group carries a rest id at least that of an earlier one.
pub proof fn lemma_rest_count_monotone(gs: Seq<State>, i: int, j: int)
    requires
        0 <= i <= j,
    ensures
        rest_count(gs, i) <= rest_count(gs, j),
    decreases j - i,
{
    if i < j {
        lemma_rest_count_monotone(gs, i, j - 1);
    }
}

/// Rest ids step only where a rest gives way to an active state: an active
/// segment and the rest that follows it share one id, and the next active
/// segment after a rest takes the next id.
pub proof fn lemma_rest_count_step(gs: Seq<State>, k: int)
    requires
        0 < k < gs.len(),
    ensures
        gs[k - 1] == State::Rest && gs[k] != State::Rest ==> rest_count(gs, k) == rest_count(gs, k - 1) + 1,
        !(gs[k - 1] == State::Rest && gs[k] != State::Rest) ==> rest_count(gs, k) == rest_count(gs, k - 1),
{
}

/// The last position below `n` to survive the first two passes survives
/// them, and none after it below `n` does.
proof fn lemma_last_kept(gs: Seq<State>, drop: bool, n: int)
    requires
        0 <= n,
    ensures
        last_kept(gs, drop, n) < n,
        last_kept(gs, drop, n) >= 0 ==> kept_first(gs, last_kept(gs, drop, n), drop),
        forall|j: int| last_kept(gs, drop, n) < j < n ==> !kept_first(gs, j, drop),
    decreases n,
{
    if n > 0 {
        lemma_last_kept(gs, drop, n - 1);
    }
}

/// Only active positions belong to an unrested reversal.
pub proof fn lemma_reversal_rows_active(gs: Seq<State>, k: int)
    requires
        0 <= k < gs.len(),
        in_unrested_reversal(gs, k),
    ensures
        gs[k] != State::Rest,
{
    let e = choose|e: int| k <= e && #[trigger] reverses_at(gs, e) && same_run(gs, k, e);
    assert(gs[k] == gs[e]);
}

/// Between an active position and a later one with a higher rest id there
/// is a rest carrying the earlier one's id.
proof fn lemma_rest_between(gs: Seq<State>, k: int, l: int)
    requires
        0 <= k < l < gs.len(),
        gs[k] != State::Rest,
        rest_count(gs, k) < rest_count(gs, l),
    ensures
        exists|p: int| k < p < l && gs[p] == State::Rest && rest_count(gs, p) == rest_count(gs, k),
    decreases l - k,
{
    lemma_rest_count_monotone(gs, k, l - 1);
    if rest_count(gs, l - 1) == rest_count(gs, k) {
        assert(gs[l - 1] == State::Rest);
        assert(l - 1 != k);
    } else {
        assert(l - 1 != k);
        lemma_rest_between(gs, k, l - 1);
    }
}

/// Segmentation never leaves a group ending mid-step: the last row of a
/// group that survives all passes is a rest.
pub proof fn lemma_last_kept_row_is_rest(gs: Seq<State>, drop: bool, k: int)
    requires
        0 <= k < gs.len(),
        kept(gs, k, drop),
        forall|j: int| k < j < gs.len() ==> !kept(gs, j, drop),
    ensures
        gs[k] == State::Rest,
{
    let n = gs.len() as int;
    lemma_last_kept(gs, drop, n);
    let l = last_kept(gs, drop, n);
    assert(l >= k);
    if gs[l] == State::Rest {
        assert(kept(gs, l, drop));
    } else if gs[k] != State::Rest {
        lemma_rest_count_monotone(gs, k, l);
        assert(rest_count(gs, k) != rest_count(gs, l));
        lemma_rest_between(gs, k, l);
        let p = choose|p: int| k < p < l && gs[p] == State::Rest && rest_count(gs, p) == rest_count(gs, k);
        if in_unrested_reversal(gs, p) {
            lemma_reversal_rows_active(gs, p);
        }
        assert(kept(gs, p, drop));
    }
}

/// Which end of a `(group, cycle, state)` run the charge is anchored to zero at.
#[derive(Debug, Clone, Copy, PartialEq, Eq, Structural)]
pub enum AnchorPoint {
    Start,
    End,
}

/// The anchor of charging and of discharging runs.
#[derive(Debug, Clone, Copy)]
pub struct QAnchorConfig {
    pub charge: AnchorPoint,
    pub discharge: AnchorPoint,
}

/// The anchor a state's charge is measured from: rests always at the start.
pub open spec fn spec_anchor_for(config: QAnchorConfig, state: State) -> AnchorPoint {
    match state {
        State::Charge => config.charge,
        State::Discharge => config.discharge,
        State::Rest => AnchorPoint::Start,
    }
}

/// Each state's anchor is its own setting: a charging run's is the charge
/// setting whatever the discharge one is, a discharging run's the
/// discharge setting whatever the charge one is, and rests are measured
/// from their start. Two configurations that agree on a state's setting
/// anchor that state alike.
pub proof fn lemma_anchor_for(config: QAnchorConfig, other: QAnchorConfig)
    ensures
        spec_anchor_for(config, State::Charge) == config.charge,
        spec_anchor_for(config, State::Discharge) == config.discharge,
        spec_anchor_for(config, State::Rest) == AnchorPoint::Start,
        config.charge == other.charge ==> spec_anchor_for(config, State::Charge) == spec_anchor_for(other, State::Charge),
        config.discharge == other.discharge ==> spec_anchor_for(config, State::Discharge) == spec_anchor_for(other, State::Discharge),
{
}

impl QAnchorConfig {
    /// The anchor a state's charge is measured from: rests always at the start.
    pub fn anchor_for(&self, state: State) -> (a: AnchorPoint)
        ensures
            a == spec_anchor_for(*self, state),
    {
        match state {
            State::Charge => self.charge,
            State::Discharge => self.discharge,
            State::Rest => AnchorPoint::Start,
        }
    }
}

/// Each row's reference: `None` where its state is anchored at the start;
/// where it is anchored at the end, the last row sharing its group, cycle
/// key and state.
pub open spec fn anchor_refs(gid: Seq<u32>, cyc: Seq<u64>, st: Seq<State>, config: QAnchorConfig, refs: Seq<Option<usize>>) -> bool {
    forall|r: int| 0 <= r < gid.len() ==> match #[trigger] refs[r] {
        None => spec_anchor_for(config, st[r]) == AnchorPoint::Start,
        Some(j) => {
            &&& spec_anchor_for(config, st[r]) == AnchorPoint::End
            &&& r <= j < gid.len()
            &&& crate::grouping::same_anchor(gid, cyc, st, r, j as int)
            &&& forall|k: int| j < k < gid.len() ==> !crate::grouping::same_anchor(gid, cyc, st, r, k)
        },
    }
}

/// Which rows re-anchoring measures from a reference row: exactly the
/// charging rows where charge is anchored at the end and the discharging
/// rows where discharge is; never a rest.
pub proof fn lemma_anchor_refs_by_setting(gid: Seq<u32>, cyc: Seq<u64>, st: Seq<State>, config: QAnchorConfig, refs: Seq<Option<usize>>, r: int)
    requires
        anchor_refs(gid, cyc, st, config, refs),
        0 <= r < gid.len(),
    ensures
        st[r] == State::Charge ==> (refs[r] is Some <==> config.charge == AnchorPoint::End),
        st[r] == State::Discharge ==> (refs[r] is Some <==> config.discharge == AnchorPoint::End),
        st[r] == State::Rest ==> refs[r] is None,
{
    let _ = refs[r];
}

/// Re-anchoring's references: with both states anchored at the start no
/// row has one, so every charge is kept as it is; a row anchored at the
/// end that is the last of its `(group, cycle, state)` run is its own
/// reference, so its charge becomes zero; and all rows of one run share
/// one reference.
pub proof fn lemma_anchor_refs(gid: Seq<u32>, cyc: Seq<u64>, st: Seq<State>, config: QAnchorConfig, refs: Seq<Option<usize>>, r: int, s: int)
    requires
        gid.len() == cyc.len() == st.len() == refs.len(),
        anchor_refs(gid, cyc, st, config, refs),
        0 <= r < gid.len(),
        0 <= s < gid.len(),
    ensures
        config.charge == AnchorPoint::Start && config.discharge == AnchorPoint::Start ==> refs[r] is None,
        refs[r] is Some && (forall|k: int| r < k < gid.len() ==> !crate::grouping::same_anchor(gid, cyc, st, r, k))
            ==> refs[r] == Some(r as usize),
        crate::grouping::same_anchor(gid, cyc, st, r, s) ==> refs[r] == refs[s],
{
    let _ = refs[r];
    let _ = refs[s];
    if crate::grouping::same_anchor(gid, cyc, st, r, s) {
        if let Some(jr) = refs[r] {
            assert(refs[s] is Some);
            let js = refs[s].unwrap();
            if (jr as int) < (js as int) {
                assert(crate::grouping::same_anchor(gid, cyc, st, r, js as int));
            } else if (js as int) < (jr as int) {
                assert(crate::grouping::same_anchor(gid, cyc, st, s, jr as int));
            }
        } else {
            assert(refs[s] is None);
        }
    }
}

/// For each row whose state is anchored at the end, the last row sharing
/// its group, cycle key and state, whose (start-anchored) charge is
/// subtracted from it; `None` for rows anchored at the start, which keep
/// their charge.
pub fn reanchor_rows(group_id: &[u32], cyc_key: &[u64], state: &[State], config: &QAnchorConfig) -> (refs: Vec<Option<usize>>)
    requires
        group_id@.len() == cyc_key@.len() == state@.len(),
    ensures
        refs@.len() == group_id@.len(),
        anchor_refs(group_id@, cyc_key@, state@, *config, refs@),
{
    let last = crate::grouping::end_anchor_rows(group_id, cyc_key, state);
    let mut refs: Vec<Option<usize>> = Vec::new();
    let mut r: usize = 0;
    while r < group_id.len()
        invariant
            group_id@.len() == cyc_key@.len() == state@.len() == last@.len(),
            r <= group_id@.len(),
            refs@.len() == r,
            forall|q: int| 0 <= q < group_id@.len() ==> {
                let j = #[trigger] last@[q] as int;
                &&& q <= j < group_id@.len()
                &&& crate::grouping::same_anchor(group_id@, cyc_key@, state@, q, j)
                &&& forall|k: int| j < k < group_id@.len() ==> !crate::grouping::same_anchor(group_id@, cyc_key@, state@, q, k)
            },
            forall|q: int| 0 <= q < r ==> match #[trigger] refs@[q] {
                None => spec_anchor_for(*config, state@[q]) == AnchorPoint::Start,
                Some(j) => {
                    &&& spec_anchor_for(*config, state@[q]) == AnchorPoint::End
                    &&& j == last@[q]
                },
            },
        decreases group_id@.len() - r,
    {
        match config.anchor_for(state[r]) {
            AnchorPoint::Start => refs.push(None),
            AnchorPoint::End => refs.push(Some(last[r])),
        }
        r += 1;
    }
    proof {
        assert forall|q: int| 0 <= q < group_id@.len() implies match #[trigger] refs@[q] {
            None => spec_anchor_for(*config, state@[q]) == AnchorPoint::Start,
            Some(j) => {
                &&& spec_anchor_for(*config, state@[q]) == AnchorPoint::End
                &&& q <= j < group_id@.len()
                &&& crate::grouping::same_anchor(group_id@, cyc_key@, state@, q, j as int)
                &&& forall|k: int| j < k < group_id@.len() ==> !crate::grouping::same_anchor(group_id@, cyc_key@, state@, q, k)
            },
        } by {
            let _ = last@[q];
        }
    }
    refs
}

} // verus!
