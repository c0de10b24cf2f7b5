//! Group ids over one or more key columns: rows share an id exactly when
//! their combined keys are equal, and ids are the ranks of the distinct
//! keys in ascending order.

use vstd::prelude::*;
use vstd::slice::slice_to_vec;

verus! {

/// Lexicographic order of character sequences, by code point.
pub open spec fn lex_lt(a: Seq<char>, b: Seq<char>) -> bool
    decreases a.len(),
{
    if a.len() == 0 {
        b.len() > 0
    } else if b.len() == 0 {
        false
    } else if a[0] != b[0] {
        (a[0] as int) < (b[0] as int)
    } else {
        lex_lt(a.drop_first(), b.drop_first())
    }
}

/// No sequence precedes itself.
pub proof fn lemma_lex_irreflexive(a: Seq<char>)
    ensures
        !lex_lt(a, a),
    decreases a.len(),
{
    if a.len() > 0 {
        lemma_lex_irreflexive(a.drop_first());
    }
}

/// Two distinct sequences are ordered one way or the other, never both.
pub proof fn lemma_lex_total(a: Seq<char>, b: Seq<char>)
    ensures
        a != b ==> (lex_lt(a, b) || lex_lt(b, a)),
        !(lex_lt(a, b) && lex_lt(b, a)),
    decreases a.len(),
{
    if a.len() > 0 && b.len() > 0 {
        lemma_lex_total(a.drop_first(), b.drop_first());
        if a[0] == b[0] && a.drop_first() == b.drop_first() {
            assert(a =~= seq![a[0]] + a.drop_first());
            assert(b =~= seq![b[0]] + b.drop_first());
        }
    } else if a.len() == 0 && b.len() == 0 {
        assert(a =~= b);
    }
}

/// The order is transitive.
pub proof fn lemma_lex_transitive(a: Seq<char>, b: Seq<char>, c: Seq<char>)
    requires
        lex_lt(a, b),
        lex_lt(b, c),
    ensures
        lex_lt(a, c),
    decreases a.len(),
{
    if a.len() > 0 && b.len() > 0 && c.len() > 0 {
        if a[0] == b[0] && b[0] == c[0] {
            lemma_lex_transitive(a.drop_first(), b.drop_first(), c.drop_first());
        }
    }
}

/// Skipping a common prefix does not change the order.
proof fn lemma_lex_skip(a: Seq<char>, b: Seq<char>, i: int)
    requires
        0 <= i < a.len(),
        i < b.len(),
        a[i] == b[i],
    ensures
        lex_lt(a.skip(i), b.skip(i)) == lex_lt(a.skip(i + 1), b.skip(i + 1)),
{
    assert(a.skip(i).drop_first() =~= a.skip(i + 1));
    assert(b.skip(i).drop_first() =~= b.skip(i + 1));
}

/// Whether `a` precedes `b`.
fn lex_less(a: &Vec<char>, b: &Vec<char>) -> (r: bool)
    ensures
        r == lex_lt(a@, b@),
{
    let mut i: usize = 0;
    assert(a@.skip(0) =~= a@);
    assert(b@.skip(0) =~= b@);
    while i < a.len() && i < b.len() && a[i] == b[i]
        invariant
            i <= a@.len(),
            i <= b@.len(),
            lex_lt(a@, b@) == lex_lt(a@.skip(i as int), b@.skip(i as int)),
        decreases a@.len() - i,
    {
        proof {
            lemma_lex_skip(a@, b@, i as int);
        }
        i += 1;
    }
    if i == a.len() {
        i < b.len()
    } else if i == b.len() {
        false
    } else {
        a[i] < b[i]
    }
}

/// Whether `a` and `b` hold the same characters.
fn same_chars(a: &Vec<char>, b: &Vec<char>) -> (r: bool)
    ensures
        r == (a@ == b@),
{
    if a.len() != b.len() {
        return false;
    }
    let mut i: usize = 0;
    while i < a.len()
        invariant
            a@.len() == b@.len(),
            i <= a@.len(),
            forall|k: int| 0 <= k < i ==> a@[k] == b@[k],
        decreases a@.len() - i,
    {
        if a[i] != b[i] {
            return false;
        }
        i += 1;
    }
    assert(a@ =~= b@);
    true
}

/// The cells of one row joined into a key, separated by U+001F.
pub open spec fn join_cells(cells: Seq<Seq<char>>) -> Seq<char>
    decreases cells.len(),
{
    if cells.len() == 0 {
        seq![]
    } else if cells.len() == 1 {
        cells[0]
    } else {
        join_cells(cells.drop_last()) + seq!['\u{1f}'] + cells.last()
    }
}

/// The combined key of a row over the key columns.
pub open spec fn row_key(columns: Seq<Vec<String>>, row: int) -> Seq<char> {
    join_cells(Seq::new(columns.len(), |c: int| columns[c]@[row]@))
}

/// Appends the characters of `s`.
fn push_chars(key: &mut Vec<char>, s: &String)
    ensures
        final(key)@ == old(key)@ + s@,
{
    let text = s.as_str();
    let len = text.unicode_len();
    let mut j: usize = 0;
    while j < len
        invariant
            len == text@.len(),
            text@ == s@,
            j <= len,
            key@ == old(key)@ + s@.take(j as int),
        decreases len - j,
    {
        key.push(text.get_char(j));
        j += 1;
        assert(key@ =~= old(key)@ + s@.take(j as int));
    }
    assert(s@.take(len as int) =~= s@);
}

/// Builds the key of row `row`.
fn build_key(columns: &[Vec<String>], row: usize) -> (key: Vec<char>)
    requires
        forall|c: int| 0 <= c < columns@.len() ==> row < (#[trigger] columns@[c])@.len(),
    ensures
        key@ == row_key(columns@, row as int),
{
    let ghost cells = Seq::new(columns@.len(), |c: int| columns@[c]@[row as int]@);
    let mut key: Vec<char> = Vec::new();
    let mut i: usize = 0;
    assert(cells.take(0) =~= seq![]);
    while i < columns.len()
        invariant
            i <= columns@.len(),
            cells == Seq::new(columns@.len(), |c: int| columns@[c]@[row as int]@),
            forall|c: int| 0 <= c < columns@.len() ==> row < (#[trigger] columns@[c])@.len(),
            key@ == join_cells(cells.take(i as int)),
        decreases columns@.len() - i,
    {
        assert(cells.take(i + 1).drop_last() =~= cells.take(i as int));
        if i > 0 {
            key.push('\u{1f}');
        }
        push_chars(&mut key, &columns[i][row]);
        proof {
            if i == 0 {
                assert(cells.take(1) =~= seq![cells[0]]);
                assert(key@ =~= cells[0]);
            }
        }
        i += 1;
    }
    assert(cells.take(columns@.len() as int) =~= cells);
    key
}

/// `u` is strictly ascending.
pub open spec fn strictly_sorted(u: Seq<Vec<char>>) -> bool {
    forall|p: int, q: int| 0 <= p < q < u.len() ==> lex_lt(#[trigger] u[p]@, #[trigger] u[q]@)
}

/// Finds where `key` belongs in the strictly ascending `u` and inserts a
/// copy there unless it is already present; gives the position and whether
/// it inserted.
fn insert_sorted(u: &mut Vec<Vec<char>>, key: &Vec<char>) -> (res: (usize, bool))
    requires
        strictly_sorted(old(u)@),
    ensures
        strictly_sorted(final(u)@),
        res.0 <= old(u)@.len(),
        res.1 ==> final(u)@.len() == old(u)@.len() + 1 && final(u)@[res.0 as int]@ == key@
            && final(u)@ == old(u)@.insert(res.0 as int, final(u)@[res.0 as int]),
        !res.1 ==> final(u)@ == old(u)@ && res.0 < old(u)@.len() && old(u)@[res.0 as int]@ == key@,
{
    let mut p: usize = 0;
    while p < u.len() && lex_less(&u[p], key)
        invariant
            p <= u@.len(),
            forall|q: int| 0 <= q < p ==> lex_lt(#[trigger] u@[q]@, key@),
        decreases u@.len() - p,
    {
        p += 1;
    }
    if p < u.len() && same_chars(&u[p], key) {
        return (p, false);
    }
    proof {
        if p < u@.len() {
            lemma_lex_total(u@[p as int]@, key@);
        }
    }
    let ghost before = u@;
    u.insert(p, slice_to_vec(key.as_slice()));
    proof {
        assert forall|a: int, b: int| 0 <= a < b < u@.len() implies lex_lt(#[trigger] u@[a]@, #[trigger] u@[b]@) by {
            if b < p {
                assert(u@[a] == before[a] && u@[b] == before[b]);
            } else if b == p {
                assert(u@[a] == before[a]);
            } else if a == p {
                assert(u@[b] == before[b - 1]);
                if b - 1 > p {
                    lemma_lex_transitive(key@, before[p as int]@, before[b - 1]@);
                }
            } else if a < p {
                assert(u@[a] == before[a] && u@[b] == before[b - 1]);
            } else {
                assert(u@[a] == before[a - 1] && u@[b] == before[b - 1]);
            }
        }
    }
    (p, true)
}

/// Distinct entries of a strictly ascending list, each the key of one of
/// `n` rows, number at most `n`.
proof fn lemma_unique_count(u: Seq<Vec<char>>, keys: Seq<Vec<char>>, w: Seq<int>, n: int)
    requires
        strictly_sorted(u),
        n == keys.len(),
        n <= u64::MAX,
        w.len() == u.len(),
        forall|p: int| 0 <= p < u.len() ==> 0 <= #[trigger] w[p] < n && u[p]@ == keys[w[p]]@,
    ensures
        u.len() <= n,
{
    let img = Seq::new(u.len(), |p: int| w[p] as u64);
    assert forall|a: int, b: int| 0 <= a < img.len() && 0 <= b < img.len() && a != b implies img[a] != img[b] by {
        assert(0 <= w[a] < n && 0 <= w[b] < n);
        if img[a] == img[b] {
            assert(w[a] == w[b]);
            assert(u[a]@ == u[b]@);
            lemma_lex_irreflexive(u[a]@);
            if a < b {
                assert(lex_lt(u[a]@, u[b]@));
            } else {
                assert(lex_lt(u[b]@, u[a]@));
            }
        }
    }
    assert forall|a: int| 0 <= a < img.len() implies (img[a] as int) < n by {
        assert(0 <= w[a] < n);
    }
    if n > 0 {
        crate::mf4::links::lemma_distinct_below(img, n);
    } else if u.len() > 0 {
        assert(0 <= w[0] < n);
    }
}

/// One group id per row from the combined keys of `columns` (cells joined
/// by U+001F): rows share an id exactly when their keys are equal, and the
/// ids are the ranks of the distinct keys in ascending order (smaller key,
/// smaller id; every id above 0 has its predecessor in use). With no
/// columns every row is in group 0.
pub fn make_group_id(columns: &[Vec<String>], n_rows: usize) -> (ids: Vec<u32>)
    requires
        forall|c: int| 0 <= c < columns@.len() ==> n_rows <= (#[trigger] columns@[c])@.len(),
        n_rows <= u32::MAX,
    ensures
        ids@.len() == n_rows,
        forall|i: int, j: int| 0 <= i < n_rows && 0 <= j < n_rows ==>
            (ids@[i] == ids@[j] <==> row_key(columns@, i) == row_key(columns@, j)),
        forall|i: int, j: int| 0 <= i < n_rows && 0 <= j < n_rows ==>
            (ids@[i] < ids@[j] <==> lex_lt(row_key(columns@, i), row_key(columns@, j))),
        forall|i: int| 0 <= i < n_rows && #[trigger] ids@[i] > 0 ==> exists|j: int| 0 <= j < n_rows && ids@[j] + 1 == ids@[i],
{
    if columns.len() == 0 {
        let mut ids: Vec<u32> = Vec::new();
        let mut r: usize = 0;
        while r < n_rows
            invariant
                r <= n_rows,
                ids@.len() == r,
                forall|k: int| 0 <= k < r ==> #[trigger] ids@[k] == 0,
            decreases n_rows - r,
        {
            ids.push(0);
            r += 1;
        }
        proof {
            assert forall|i: int, j: int| 0 <= i < n_rows && 0 <= j < n_rows implies
                (ids@[i] == ids@[j] <==> row_key(columns@, i) == row_key(columns@, j))
                && (ids@[i] < ids@[j] <==> lex_lt(row_key(columns@, i), row_key(columns@, j))) by {
                assert(row_key(columns@, i) =~= row_key(columns@, j));
                lemma_lex_irreflexive(row_key(columns@, i));
            }
        }
        return ids;
    }
    let mut keys: Vec<Vec<char>> = Vec::new();
    let mut r: usize = 0;
    while r < n_rows
        invariant
            r <= n_rows,
            keys@.len() == r,
            forall|c: int| 0 <= c < columns@.len() ==> n_rows <= (#[trigger] columns@[c])@.len(),
            forall|k: int| 0 <= k < r ==> (#[trigger] keys@[k])@ == row_key(columns@, k),
        decreases n_rows - r,
    {
        keys.push(build_key(columns, r));
        r += 1;
    }
    let (uniq, Ghost(w), Ghost(at)) = distinct_sorted(&keys);
    let mut ids: Vec<u32> = Vec::new();
    let mut r: usize = 0;
    proof {
        lemma_unique_count(uniq@, keys@, w, n_rows as int);
    }
    while r < n_rows
        invariant
            r <= n_rows,
            n_rows <= u32::MAX,
            keys@.len() == n_rows,
            uniq@.len() <= n_rows,
            at.len() == n_rows,
            forall|k: int| 0 <= k < n_rows ==> 0 <= #[trigger] at[k] < uniq@.len() && uniq@[at[k]]@ == keys@[k]@,
            ids@.len() == r,
            forall|k: int| 0 <= k < r ==> #[trigger] ids@[k] < uniq@.len() && uniq@[ids@[k] as int]@ == keys@[k]@,
        decreases n_rows - r,
    {
        let mut p: usize = 0;
        let ghost target = at[r as int];
        assert(0 <= target < uniq@.len() && uniq@[target]@ == keys@[r as int]@);
        while !same_chars(&uniq[p], &keys[r])
            invariant
                p <= target,
                0 <= target < uniq@.len(),
                uniq@.len() <= n_rows,
                uniq@[target]@ == keys@[r as int]@,
                r < keys@.len(),
            decreases target - p,
        {
            p += 1;
        }
        ids.push(p as u32);
        r += 1;
    }
    proof {
        assert forall|i: int, j: int| 0 <= i < n_rows && 0 <= j < n_rows implies
            (ids@[i] == ids@[j] <==> row_key(columns@, i) == row_key(columns@, j))
            && (ids@[i] < ids@[j] <==> lex_lt(row_key(columns@, i), row_key(columns@, j))) by {
            let a = ids@[i] as int;
            let b = ids@[j] as int;
            assert(uniq@[a]@ == keys@[i]@ && uniq@[b]@ == keys@[j]@);
            lemma_lex_irreflexive(uniq@[a]@);
            if a < b {
                assert(lex_lt(uniq@[a]@, uniq@[b]@));
                lemma_lex_total(uniq@[a]@, uniq@[b]@);
            } else if b < a {
                assert(lex_lt(uniq@[b]@, uniq@[a]@));
                lemma_lex_total(uniq@[a]@, uniq@[b]@);
            }
        }
        assert forall|i: int| 0 <= i < n_rows && #[trigger] ids@[i] > 0 implies exists|j: int| 0 <= j < n_rows && ids@[j] + 1 == ids@[i] by {
            let v = ids@[i] - 1;
            let k = w[v];
            assert(0 <= k < n_rows && uniq@[v]@ == keys@[k]@);
            let c = ids@[k] as int;
            assert(uniq@[c]@ == keys@[k]@);
            if c != v {
                lemma_lex_irreflexive(uniq@[v]@);
                if c < v {
                    assert(lex_lt(uniq@[c]@, uniq@[v]@));
                } else {
                    assert(lex_lt(uniq@[v]@, uniq@[c]@));
                }
            }
            assert(ids@[k] + 1 == ids@[i]);
        }
    }
    ids
}

/// The distinct keys in strictly ascending order, with a row holding each
/// entry (`w`) and the entry holding each row's key (`at`).
fn distinct_sorted(keys: &Vec<Vec<char>>) -> (res: (Vec<Vec<char>>, Ghost<Seq<int>>, Ghost<Seq<int>>))
    ensures
        strictly_sorted(res.0@),
        res.1@.len() == res.0@.len(),
        forall|p: int| 0 <= p < res.0@.len() ==> 0 <= #[trigger] res.1@[p] < keys@.len() && res.0@[p]@ == keys@[res.1@[p]]@,
        res.2@.len() == keys@.len(),
        forall|k: int| 0 <= k < keys@.len() ==> 0 <= #[trigger] res.2@[k] < res.0@.len() && res.0@[res.2@[k]]@ == keys@[k]@,
{
    let mut uniq: Vec<Vec<char>> = Vec::new();
    let ghost mut w: Seq<int> = seq![];
    let ghost mut at: Seq<int> = seq![];
    let mut r: usize = 0;
    while r < keys.len()
        invariant
            r <= keys@.len(),
            strictly_sorted(uniq@),
            w.len() == uniq@.len(),
            forall|p: int| 0 <= p < uniq@.len() ==> 0 <= #[trigger] w[p] < r && uniq@[p]@ == keys@[w[p]]@,
            at.len() == r,
            forall|k: int| 0 <= k < r ==> 0 <= #[trigger] at[k] < uniq@.len() && uniq@[at[k]]@ == keys@[k]@,
        decreases keys@.len() - r,
    {
        let ghost before = uniq@;
        let (p, inserted) = insert_sorted(&mut uniq, &keys[r]);
        proof {
            if inserted {
                let nw = w.insert(p as int, r as int);
                let nat_ = Seq::new(r as nat, |k: int| if at[k] >= p { at[k] + 1 } else { at[k] }).push(p as int);
                assert forall|q: int| 0 <= q < uniq@.len() implies 0 <= #[trigger] nw[q] < r + 1 && uniq@[q]@ == keys@[nw[q]]@ by {
                    if q < p {
                        assert(uniq@[q] == before[q]);
                    } else if q > p {
                        assert(uniq@[q] == before[q - 1]);
                    }
                }
                assert forall|k: int| 0 <= k < r + 1 implies 0 <= #[trigger] nat_[k] < uniq@.len() && uniq@[nat_[k]]@ == keys@[k]@ by {
                    if k < r {
                        if at[k] >= p {
                            assert(uniq@[at[k] + 1] == before[at[k]]);
                        } else {
                            assert(uniq@[at[k]] == before[at[k]]);
                        }
                    }
                }
                w = nw;
                at = nat_;
            } else {
                at = at.push(p as int);
            }
        }
        r += 1;
    }
    (uniq, Ghost(w), Ghost(at))
}

} // verus!
