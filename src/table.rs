//! Tables as plain values, and the row operations that the statements share:
//! filtering by a condition, projecting onto columns and a stable ordering.
use vstd::prelude::*;
use crate::common::FieldIndexMap;
use crate::conditions::{condition_holds, get_query, sign_int, sign_text};
use crate::error::{ErrorKind, MiniSQLError};
use crate::text::{compare_text, lemma_lex_total, parse_i32, parse_i32_spec, views};

verus! {

/// The character sequences of a list of rows.
pub open spec fn rows_view(v: Seq<Vec<String>>) -> Seq<Seq<Seq<char>>> {
    Seq::new(v.len(), |i: int| views(v[i]@))
}

/// The value that the last of `assigns` naming position `i` gives it.
pub open spec fn assigned_value(assigns: Seq<(usize, Seq<char>)>, i: int) -> Option<Seq<char>>
    decreases assigns.len(),
{
    if assigns.len() == 0 {
        None
    } else if assigns.last().0 as int == i {
        Some(assigns.last().1)
    } else {
        assigned_value(assigns.drop_last(), i)
    }
}

/// Positions paired with the values written to them.
pub open spec fn pairs_of(positions: Seq<usize>, values: Seq<Seq<char>>) -> Seq<(usize, Seq<char>)> {
    Seq::new(positions.len(), |k: int| (positions[k], values[k]))
}

/// A table: its header row and its data rows, each a list of field values.
pub struct Table {
    pub header: Vec<String>,
    pub rows: Vec<Vec<String>>,
}

/// The value of `row` at column `p`, or the empty string past its end.
pub open spec fn cell(row: Seq<Seq<char>>, p: int) -> Seq<char> {
    if 0 <= p < row.len() {
        row[p]
    } else {
        Seq::empty()
    }
}

/// `row` projected onto the columns `ps`, in that order.
pub open spec fn project(row: Seq<Seq<char>>, ps: Seq<usize>) -> Seq<Seq<char>> {
    Seq::new(ps.len(), |i: int| cell(row, ps[i] as int))
}

/// The rows on which the condition `cond` evaluates to `keep`, in order;
/// nothing when it fails on some row.
pub open spec fn filter_rows(
    cond: Seq<Seq<char>>,
    m: Map<Seq<char>, usize>,
    rows: Seq<Seq<Seq<char>>>,
    keep: bool,
) -> Option<Seq<Seq<Seq<char>>>>
    decreases rows.len(),
{
    if rows.len() == 0 {
        Some(Seq::empty())
    } else {
        match (filter_rows(cond, m, rows.drop_last(), keep), condition_holds(cond, 0, cond.len() as int, m, rows.last())) {
            (Some(f), Some(b)) => Some(if b == keep {
                f.push(rows.last())
            } else {
                f
            }),
            _ => None,
        }
    }
}

/// The sort key of a value in numeric mode: its `i32` value, else zero.
pub open spec fn numeric_key(v: Seq<char>) -> int {
    match parse_i32_spec(v) {
        Some(i) => i as int,
        None => 0,
    }
}

/// The sign of comparing two rows by their value at column `col`.
pub open spec fn key_sign(a: Seq<Seq<char>>, b: Seq<Seq<char>>, col: int, numeric: bool) -> int {
    if numeric {
        sign_int(numeric_key(cell(a, col)), numeric_key(cell(b, col)))
    } else {
        sign_text(cell(a, col), cell(b, col))
    }
}

/// Row `a` may come before row `b` in the requested direction.
pub open spec fn comes_before(a: Seq<Seq<char>>, b: Seq<Seq<char>>, col: int, numeric: bool, desc: bool) -> bool {
    if desc {
        key_sign(a, b, col, numeric) >= 0
    } else {
        key_sign(a, b, col, numeric) <= 0
    }
}

/// `out` is `rows` reordered by `perm` (`out[i] == rows[perm[i]]`), sorted by
/// column `col` in the requested direction, with rows of equal key in their
/// original relative order.
pub open spec fn is_stable_order(
    out: Seq<Seq<Seq<char>>>,
    rows: Seq<Seq<Seq<char>>>,
    perm: Seq<int>,
    col: int,
    numeric: bool,
    desc: bool,
) -> bool {
    &&& perm.len() == rows.len()
    &&& out.len() == rows.len()
    &&& forall|i: int| 0 <= i < perm.len() ==> 0 <= #[trigger] perm[i] < rows.len() && out[i] == rows[perm[i]]
    &&& forall|i: int, j: int| 0 <= i < j < perm.len() ==> perm[i] != perm[j]
    &&& forall|i: int| 0 <= i < out.len() - 1 ==> comes_before(#[trigger] out[i], out[i + 1], col, numeric, desc)
    &&& forall|i: int, j: int|
        0 <= i < j < out.len() && key_sign(out[i], out[j], col, numeric) == 0 ==> perm[i] < perm[j]
}

/// A copy of a row.
pub fn clone_row(row: &Vec<String>) -> (r: Vec<String>)
    ensures
        r@ == row@,
{
    let mut r: Vec<String> = Vec::new();
    let mut i: usize = 0;
    while i < row.len()
        invariant
            i <= row@.len(),
            r@ == row@.take(i as int),
        decreases row@.len() - i,
    {
        r.push(row[i].clone());
        i = i + 1;
        proof {
            assert(r@ =~= row@.take(i as int));
        }
    }
    proof {
        assert(row@.take(row@.len() as int) =~= row@);
    }
    r
}

/// The value of `row` at column `p`, or the empty string past its end.
pub fn cell_text(row: &Vec<String>, p: usize) -> (r: &str)
    ensures
        r@ == cell(views(row@), p as int),
{
    proof {
        reveal_strlit("");
    }
    if p < row.len() {
        row[p].as_str()
    } else {
        ""
    }
}

/// `row` projected onto the columns `positions`, in that order.
pub fn project_row(row: &Vec<String>, positions: &Vec<usize>) -> (r: Vec<String>)
    ensures
        views(r@) == project(views(row@), positions@),
{
    let mut r: Vec<String> = Vec::new();
    let mut i: usize = 0;
    while i < positions.len()
        invariant
            i <= positions@.len(),
            r@.len() == i,
            views(r@) == project(views(row@), positions@.take(i as int)),
        decreases positions@.len() - i,
    {
        let v = String::from_str(cell_text(row, positions[i]));
        proof {
            assert(v@ == cell(views(row@), positions@[i as int] as int));
            assert(positions@.take(i + 1).drop_last() =~= positions@.take(i as int));
            let prev = project(views(row@), positions@.take(i as int));
            let next = project(views(row@), positions@.take(i + 1));
            let pushed = r@.push(v);
            assert(views(pushed).len() == i + 1);
            assert(next.len() == i + 1);
            assert forall|k: int| 0 <= k < i + 1 implies #[trigger] views(pushed)[k] == next[k] by {
                assert(positions@.take(i + 1)[k] == positions@[k]);
                if k < i {
                    assert(pushed[k] == r@[k]);
                    assert(views(r@)[k] == prev[k]);
                    assert(positions@.take(i as int)[k] == positions@[k]);
                } else {
                    assert(pushed[k] == v);
                }
            }
            assert(views(pushed) =~~= next);
        }
        r.push(v);
        i = i + 1;
    }
    proof {
        assert(positions@.take(positions@.len() as int) =~= positions@);
    }
    r
}

proof fn lemma_filter_stuck(
    cond: Seq<Seq<char>>,
    m: Map<Seq<char>, usize>,
    rows: Seq<Seq<Seq<char>>>,
    keep: bool,
    i: int,
)
    requires
        0 <= i < rows.len(),
        filter_rows(cond, m, rows.take(i + 1), keep) is None,
    ensures
        filter_rows(cond, m, rows, keep) is None,
    decreases rows.len(),
{
    if i + 1 == rows.len() {
        assert(rows.take(i + 1) =~= rows);
    } else {
        assert(rows.drop_last().take(i + 1) =~= rows.take(i + 1));
        lemma_filter_stuck(cond, m, rows.drop_last(), keep, i);
    }
}

/// The rows on which `condition` evaluates to `keep`, in order. A condition
/// that fails on some row is an `InvalidSyntax` error.
pub fn filter_table_rows(
    condition: &Vec<String>,
    indexes: &FieldIndexMap,
    rows: &Vec<Vec<String>>,
    keep: bool,
) -> (r: Result<Vec<Vec<String>>, MiniSQLError>)
    ensures
        r is Err <==> filter_rows(views(condition@), indexes@, rows_view(rows@), keep) is None,
        r matches Ok(f) ==> filter_rows(views(condition@), indexes@, rows_view(rows@), keep) == Some(rows_view(f@)),
        r matches Err(e) ==> e.kind() == ErrorKind::InvalidSyntax,
{
    let ghost t = views(condition@);
    let ghost all = rows_view(rows@);
    let mut out: Vec<Vec<String>> = Vec::new();
    let mut i: usize = 0;
    proof {
        assert(all.take(0) =~= Seq::<Seq<Seq<char>>>::empty());
        assert(rows_view(out@) =~~= Seq::<Seq<Seq<char>>>::empty());
    }
    while i < rows.len()
        invariant
            t == views(condition@),
            all == rows_view(rows@),
            i <= rows@.len(),
            filter_rows(t, indexes@, all.take(i as int), keep) == Some(rows_view(out@)),
        decreases rows@.len() - i,
    {
        proof {
            assert(all.take(i + 1).drop_last() =~= all.take(i as int));
            assert(all.take(i + 1).last() == views(rows@[i as int]@));
        }
        match get_query(condition.as_slice(), 0, condition.len(), indexes, rows[i].as_slice()) {
            Ok(b) => {
                if b == keep {
                    let row = clone_row(&rows[i]);
                    proof {
                        assert(rows_view(out@.push(row)) =~~= rows_view(out@).push(views(rows@[i as int]@)));
                    }
                    out.push(row);
                }
            },
            Err(e) => {
                proof {
                    lemma_filter_stuck(t, indexes@, all, keep, i as int);
                }
                return Err(e);
            },
        }
        i = i + 1;
    }
    proof {
        assert(all.take(rows@.len() as int) =~= all);
    }
    Ok(out)
}

/// The sign of comparing two rows by their value at column `col`.
pub fn compare_rows(a: &Vec<String>, b: &Vec<String>, col: usize, numeric: bool) -> (r: i8)
    ensures
        r as int == key_sign(views(a@), views(b@), col as int, numeric),
{
    let x = cell_text(a, col);
    let y = cell_text(b, col);
    if numeric {
        let i: i32 = match parse_i32(x) {
            Some(v) => v,
            None => 0,
        };
        let j: i32 = match parse_i32(y) {
            Some(v) => v,
            None => 0,
        };
        if i < j {
            -1
        } else if i == j {
            0
        } else {
            1
        }
    } else {
        let c = compare_text(x, y);
        if c < 0 {
            -1
        } else if c == 0 {
            0
        } else {
            1
        }
    }
}

proof fn lemma_key_sign_antisymmetric(a: Seq<Seq<char>>, b: Seq<Seq<char>>, col: int, numeric: bool)
    ensures
        key_sign(a, b, col, numeric) == -key_sign(b, a, col, numeric),
{
    lemma_lex_total(cell(a, col), cell(b, col));
}

proof fn lemma_insert_perm_places(
    ov: Seq<Seq<Seq<char>>>,
    rs: Seq<Seq<Seq<char>>>,
    xv: Seq<Seq<char>>,
    old_perm: Seq<int>,
    p: int,
    c: int,
    numeric: bool,
    desc: bool,
)
    requires
        is_stable_order(ov, rs, old_perm, c, numeric, desc),
        0 <= p <= ov.len(),
        p > 0 ==> comes_before(ov[p - 1], xv, c, numeric, desc),
        forall|q: int| p <= q < ov.len() ==> !comes_before(#[trigger] ov[q], xv, c, numeric, desc),
    ensures
        ({
            let perm = old_perm.insert(p, rs.len() as int);
            let nv = ov.insert(p, xv);
            forall|i: int| 0 <= i < perm.len() ==> 0 <= #[trigger] perm[i] < rs.len() + 1 && nv[i] == rs.push(xv)[perm[i]]
        }),
{
    let n = rs.len() as int;
    let nv = ov.insert(p, xv);
    let perm = old_perm.insert(p, n);
    let rs2 = rs.push(xv);
    ov.insert_ensures(p, xv);
    old_perm.insert_ensures(p, n);
    assert forall|i: int| 0 <= i < perm.len() implies 0 <= #[trigger] perm[i] < rs2.len() && nv[i] == rs2[perm[i]] by {
        if i < p {
            assert(perm[i] == old_perm[i]);
        } else if i > p {
            assert(perm[i] == old_perm[i - 1]);
        }
    }
}

proof fn lemma_insert_perm_distinct(
    ov: Seq<Seq<Seq<char>>>,
    rs: Seq<Seq<Seq<char>>>,
    xv: Seq<Seq<char>>,
    old_perm: Seq<int>,
    p: int,
    c: int,
    numeric: bool,
    desc: bool,
)
    requires
        is_stable_order(ov, rs, old_perm, c, numeric, desc),
        0 <= p <= ov.len(),
        p > 0 ==> comes_before(ov[p - 1], xv, c, numeric, desc),
        forall|q: int| p <= q < ov.len() ==> !comes_before(#[trigger] ov[q], xv, c, numeric, desc),
    ensures
        ({
            let perm = old_perm.insert(p, rs.len() as int);
            let nv = ov.insert(p, xv);
            forall|i: int, j: int| 0 <= i < j < perm.len() ==> perm[i] != perm[j]
        }),
{
    let n = rs.len() as int;
    let nv = ov.insert(p, xv);
    let perm = old_perm.insert(p, n);
    let rs2 = rs.push(xv);
    ov.insert_ensures(p, xv);
    old_perm.insert_ensures(p, n);
    assert forall|i: int, j: int| 0 <= i < j < perm.len() implies perm[i] != perm[j] by {
        if i != p && j != p {
            let oi = if i < p { i } else { i - 1 };
            let oj = if j < p { j } else { j - 1 };
            assert(perm[i] == old_perm[oi]);
            assert(perm[j] == old_perm[oj]);
        } else if i == p {
            assert(perm[j] == old_perm[j - 1]);
        } else {
            assert(perm[i] == old_perm[i]);
        }
    }
}

proof fn lemma_insert_sorted(
    ov: Seq<Seq<Seq<char>>>,
    rs: Seq<Seq<Seq<char>>>,
    xv: Seq<Seq<char>>,
    old_perm: Seq<int>,
    p: int,
    c: int,
    numeric: bool,
    desc: bool,
)
    requires
        is_stable_order(ov, rs, old_perm, c, numeric, desc),
        0 <= p <= ov.len(),
        p > 0 ==> comes_before(ov[p - 1], xv, c, numeric, desc),
        forall|q: int| p <= q < ov.len() ==> !comes_before(#[trigger] ov[q], xv, c, numeric, desc),
    ensures
        ({
            let perm = old_perm.insert(p, rs.len() as int);
            let nv = ov.insert(p, xv);
            forall|i: int| 0 <= i < nv.len() - 1 ==> comes_before(#[trigger] nv[i], nv[i + 1], c, numeric, desc)
        }),
{
    let n = rs.len() as int;
    let nv = ov.insert(p, xv);
    let perm = old_perm.insert(p, n);
    let rs2 = rs.push(xv);
    ov.insert_ensures(p, xv);
    old_perm.insert_ensures(p, n);
    assert forall|i: int| 0 <= i < nv.len() - 1 implies comes_before(#[trigger] nv[i], nv[i + 1], c, numeric, desc) by {
        if i + 1 < p {
            assert(nv[i] == ov[i] && nv[i + 1] == ov[i + 1]);
        } else if i + 1 == p {
            assert(nv[i] == ov[i] && nv[i + 1] == xv);
        } else if i == p {
            assert(nv[i] == xv && nv[i + 1] == ov[i]);
            lemma_key_sign_antisymmetric(ov[i], xv, c, numeric);
        } else {
            assert(nv[i] == ov[i - 1] && nv[i + 1] == ov[i]);
        }
    }
}

proof fn lemma_insert_stable(
    ov: Seq<Seq<Seq<char>>>,
    rs: Seq<Seq<Seq<char>>>,
    xv: Seq<Seq<char>>,
    old_perm: Seq<int>,
    p: int,
    c: int,
    numeric: bool,
    desc: bool,
)
    requires
        is_stable_order(ov, rs, old_perm, c, numeric, desc),
        0 <= p <= ov.len(),
        p > 0 ==> comes_before(ov[p - 1], xv, c, numeric, desc),
        forall|q: int| p <= q < ov.len() ==> !comes_before(#[trigger] ov[q], xv, c, numeric, desc),
    ensures
        ({
            let perm = old_perm.insert(p, rs.len() as int);
            let nv = ov.insert(p, xv);
            forall|i: int, j: int|
                0 <= i < j < nv.len() && key_sign(nv[i], nv[j], c, numeric) == 0 ==> perm[i] < perm[j]
        }),
{
    let n = rs.len() as int;
    let nv = ov.insert(p, xv);
    let perm = old_perm.insert(p, n);
    let rs2 = rs.push(xv);
    ov.insert_ensures(p, xv);
    old_perm.insert_ensures(p, n);
    assert forall|i: int, j: int|
        0 <= i < j < nv.len() && key_sign(nv[i], nv[j], c, numeric) == 0 implies perm[i] < perm[j] by {
        if i != p && j != p {
            let oi = if i < p { i } else { i - 1 };
            let oj = if j < p { j } else { j - 1 };
            assert(nv[i] == ov[oi] && perm[i] == old_perm[oi]);
            assert(nv[j] == ov[oj] && perm[j] == old_perm[oj]);
        } else if j == p {
            assert(perm[i] == old_perm[i]);
        } else {
            assert(nv[j] == ov[j - 1]);
            lemma_key_sign_antisymmetric(ov[j - 1], xv, c, numeric);
        }
    }
}

proof fn lemma_insert_keeps_stable_order(
    ov: Seq<Seq<Seq<char>>>,
    rs: Seq<Seq<Seq<char>>>,
    xv: Seq<Seq<char>>,
    old_perm: Seq<int>,
    p: int,
    c: int,
    numeric: bool,
    desc: bool,
)
    requires
        is_stable_order(ov, rs, old_perm, c, numeric, desc),
        0 <= p <= ov.len(),
        p > 0 ==> comes_before(ov[p - 1], xv, c, numeric, desc),
        forall|q: int| p <= q < ov.len() ==> !comes_before(#[trigger] ov[q], xv, c, numeric, desc),
    ensures
        is_stable_order(ov.insert(p, xv), rs.push(xv), old_perm.insert(p, rs.len() as int), c, numeric, desc),
{
    ov.insert_ensures(p, xv);
    old_perm.insert_ensures(p, rs.len() as int);
    lemma_insert_perm_places(ov, rs, xv, old_perm, p, c, numeric, desc);
    lemma_insert_perm_distinct(ov, rs, xv, old_perm, p, c, numeric, desc);
    lemma_insert_sorted(ov, rs, xv, old_perm, p, c, numeric, desc);
    lemma_insert_stable(ov, rs, xv, old_perm, p, c, numeric, desc);
}

/// Sorts `rows` stably by their value at column `col`: numerically when
/// `numeric`, else ordinally; descending when `desc`.
pub fn order_rows(rows: &Vec<Vec<String>>, col: usize, numeric: bool, desc: bool) -> (r: Vec<Vec<String>>)
    ensures
        exists|perm: Seq<int>| is_stable_order(rows_view(r@), rows_view(rows@), perm, col as int, numeric, desc),
{
    let ghost all = rows_view(rows@);
    let ghost c = col as int;
    let mut out: Vec<Vec<String>> = Vec::new();
    let ghost mut perm: Seq<int> = Seq::empty();
    let mut n: usize = 0;
    proof {
        assert(rows_view(out@) =~~= Seq::<Seq<Seq<char>>>::empty());
    }
    while n < rows.len()
        invariant
            all == rows_view(rows@),
            c == col as int,
            n <= rows@.len(),
            is_stable_order(rows_view(out@), all.take(n as int), perm, c, numeric, desc),
        decreases rows@.len() - n,
    {
        let x = clone_row(&rows[n]);
        let ghost xv = views(x@);
        let ghost ov = rows_view(out@);
        let mut p: usize = out.len();
        while p > 0 && compare_rows_before(&out[p - 1], &x, col, numeric, desc) == false
            invariant
                p <= out@.len(),
                ov == rows_view(out@),
                xv == views(x@),
                c == col as int,
                forall|q: int| p <= q < ov.len() ==> !comes_before(#[trigger] ov[q], xv, c, numeric, desc),
            decreases p,
        {
            p = p - 1;
        }
        let ghost old_perm = perm;
        proof {
            ov.insert_ensures(p as int, xv);
            assert(rows_view(out@.insert(p as int, x)) =~~= ov.insert(p as int, xv));
            assert(all.take(n + 1) =~= all.take(n as int).push(xv));
            lemma_insert_keeps_stable_order(ov, all.take(n as int), xv, old_perm, p as int, c, numeric, desc);
            perm = old_perm.insert(p as int, n as int);
        }
        out.insert(p, x);
        n = n + 1;
    }
    proof {
        assert(all.take(rows@.len() as int) =~= all);
    }
    out
}

/// Whether row `a` may come before row `b` in the requested direction.
fn compare_rows_before(a: &Vec<String>, b: &Vec<String>, col: usize, numeric: bool, desc: bool) -> (r: bool)
    ensures
        r == comes_before(views(a@), views(b@), col as int, numeric, desc),
{
    let s = compare_rows(a, b, col, numeric);
    if desc {
        s >= 0
    } else {
        s <= 0
    }
}

proof fn lemma_assigned_value_suffix(assigns: Seq<(usize, Seq<char>)>, k: int, i: int)
    requires
        0 <= k <= assigns.len(),
        forall|j: int| k <= j < assigns.len() ==> (#[trigger] assigns[j]).0 as int != i,
    ensures
        assigned_value(assigns, i) == assigned_value(assigns.take(k), i),
    decreases assigns.len(),
{
    if k == assigns.len() {
        assert(assigns.take(k) =~= assigns);
    } else {
        assert(assigns.drop_last().take(k) =~= assigns.take(k));
        lemma_assigned_value_suffix(assigns.drop_last(), k, i);
    }
}

/// The index of the last pair naming position `i`, if any.
pub(crate) fn find_assigned(indexes: &[usize], values: &[String], i: usize) -> (r: Option<usize>)
    requires
        indexes@.len() == values@.len(),
    ensures
        r matches Some(k) ==> k < values@.len() && assigned_value(pairs_of(indexes@, views(values@)), i as int)
            == Some(values@[k as int]@),
        r is None ==> assigned_value(pairs_of(indexes@, views(values@)), i as int) is None,
{
    let ghost a = pairs_of(indexes@, views(values@));
    let mut k: usize = indexes.len();
    while k > 0
        invariant
            a == pairs_of(indexes@, views(values@)),
            indexes@.len() == values@.len(),
            k <= indexes@.len(),
            forall|j: int| k <= j < a.len() ==> (#[trigger] a[j]).0 as int != i,
        decreases k,
    {
        if indexes[k - 1] == i {
            proof {
                lemma_assigned_value_suffix(a, k as int, i as int);
                assert(a.take(k as int).last() == a[k - 1]);
            }
            return Some(k - 1);
        }
        k = k - 1;
    }
    proof {
        lemma_assigned_value_suffix(a, 0, i as int);
    }
    None
}

} // verus!
