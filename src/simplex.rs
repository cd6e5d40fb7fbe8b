use vstd::prelude::*;

use crate::matrix::{columns, entries, DenseMatrix};
use crate::rational::{
    lemma_lt_le_trans, lemma_mul_nonzero, lemma_mul_pos, lemma_neg_lt_nonneg, lemma_plus_congr,
    lemma_same_trans, lemma_times_congr, lemma_mul_magnitude, ratio_cross_fits, ratio_lt, small, fits64, Frac, Rational,
};

verus! {

/// A tableau as rows of exact fractions.
pub type Table = Seq<Seq<Frac>>;

/// Ways a solve can fail.
#[derive(Debug, Clone, Copy, PartialEq, Eq)]
pub enum SimplexError {
    /// The requirement vector or a constraint row does not match the other inputs.
    InvalidDimensions,
    /// The entering column has no row that limits it.
    Unbounded,
    /// The pivot cap was reached before an optimal tableau.
    IterationLimitExceeded,
    /// An exact entry no longer fits in 64-bit parts.
    Overflow,
}

/// What the selection rules decide for a tableau.
#[derive(Debug, Clone, Copy, PartialEq, Eq)]
pub enum PivotStep {
    Pivot { col: usize, row: usize },
    Optimal,
    Unbounded,
}

pub open spec fn row_model(v: &Vec<Rational>) -> Seq<Frac> {
    Seq::new(v@.len(), |j: int| v@[j]@)
}

pub open spec fn model(t: &DenseMatrix) -> Table {
    Seq::new(
        entries(*t).len(),
        |i: int| Seq::new(entries(*t)[i].len(), |j: int| entries(*t)[i][j]@),
    )
}

/// At least one row, at least two columns, all rows equally long.
pub open spec fn is_rect(t: Table) -> bool {
    &&& t.len() >= 1
    &&& t[0].len() >= 2
    &&& forall|i: int| 0 <= i < t.len() ==> #[trigger] t[i].len() == t[0].len()
}

/// Every entry has a positive denominator.
pub open spec fn valid_table(t: Table) -> bool {
    forall|i: int, j: int| 0 <= i < t.len() && 0 <= j < t[i].len() ==> (#[trigger] t[i][j]).valid()
}

/// Every entry has parts of at most `2^15` in magnitude.
pub open spec fn small_table(t: Table) -> bool {
    forall|i: int, j: int| 0 <= i < t.len() && 0 <= j < t[i].len() ==> small(#[trigger] t[i][j])
}

/// The right-hand-side column.
pub open spec fn last_col(t: Table) -> int {
    t[0].len() - 1
}

/// Column `c` holds the most negative objective-row entry, first one on ties.
pub open spec fn entering(t: Table, c: int) -> bool {
    &&& 1 <= c < last_col(t)
    &&& t[0][c].n < 0
    &&& forall|j: int| 1 <= j < last_col(t) ==> t[0][c].le(#[trigger] t[0][j])
    &&& forall|j: int| 1 <= j < c ==> t[0][c].lt(#[trigger] t[0][j])
}

/// No objective-row entry (right-hand side aside) is negative.
pub open spec fn optimal(t: Table) -> bool {
    forall|j: int| 1 <= j < last_col(t) ==> (#[trigger] t[0][j]).n >= 0
}

/// Row `i` takes part in the ratio test for column `c`.
pub open spec fn candidate(t: Table, c: int, i: int) -> bool {
    &&& 1 <= i < t.len()
    &&& t[i][c].n > 0
    &&& t[i][last_col(t)].n >= 0
}

pub open spec fn ratio(t: Table, c: int, i: int) -> Frac {
    t[i][last_col(t)].over(t[i][c])
}

/// Row `r` has the smallest ratio for column `c`, first one on ties.
pub open spec fn leaving(t: Table, c: int, r: int) -> bool {
    &&& candidate(t, c, r)
    &&& forall|i: int| #[trigger] candidate(t, c, i) ==> ratio(t, c, r).le(ratio(t, c, i))
    &&& forall|i: int| #[trigger] candidate(t, c, i) && i < r ==> ratio(t, c, r).lt(ratio(t, c, i))
}

/// Comparing the ratios of rows `i` and `k` for column `c` takes cross
/// products beyond 128 bits.
pub open spec fn ratio_overflow(t: Table, c: int, i: int, k: int) -> bool {
    &&& entering(t, c)
    &&& candidate(t, c, i)
    &&& candidate(t, c, k)
    &&& !ratio_cross_fits(t[i][last_col(t)], t[i][c], t[k][last_col(t)], t[k][c])
}

/// Column `c` enters, and no row limits it.
pub open spec fn unbounded(t: Table, c: int) -> bool {
    &&& entering(t, c)
    &&& forall|i: int| !#[trigger] candidate(t, c, i)
}

pub open spec fn selects(t: Table, s: PivotStep) -> bool {
    match s {
        PivotStep::Pivot { col, row } => entering(t, col as int) && leaving(t, col as int, row as int),
        PivotStep::Optimal => optimal(t),
        PivotStep::Unbounded => exists|c: int| #[trigger] unbounded(t, c),
    }
}

/// `x + (pj / pc) * -t`: an entry after elimination, from its old value `x`,
/// the pivot row's entry `pj` in its column, the pivot `pc` and the row's old
/// entry `t` in the pivot column.
pub open spec fn pivot_update(x: Frac, pj: Frac, pc: Frac, t: Frac) -> Frac {
    x.plus(pj.over(pc).times(t.negated()))
}

/// The entry after elimination as `Rational` arithmetic computes it step by
/// step: quotient, negation, product, sum; `None` when a step does not fit.
pub open spec fn update_exact(x: Frac, pj: Frac, pc: Frac, t: Frac) -> Option<Frac> {
    let q = pj.over_exact(pc);
    let m = q.times_exact(t.negated());
    let e = x.plus_exact(m);
    if fits64(q) && t.n != i64::MIN && fits64(m) && fits64(e) {
        Some(e)
    } else {
        None
    }
}

/// `u` is `t` after the elimination of column `c` from every row but `r`,
/// each new entry written exactly as `update_exact` gives it.
pub open spec fn reduced_exact(t: Table, c: int, r: int, u: Table) -> bool {
    &&& u.len() == t.len()
    &&& forall|i: int| 0 <= i < t.len() ==> #[trigger] u[i].len() == t[i].len()
    &&& u[r] == t[r]
    &&& forall|i: int, j: int|
        0 <= i < t.len() && i != r && 0 <= j < t[i].len() ==> update_exact(
            t[i][j],
            t[r][j],
            t[r][c],
            t[i][c],
        ) == Some(#[trigger] u[i][j])
}

/// Every entry of the elimination of column `c` around row `r` fits.
pub open spec fn row_ops_fit(t: Table, c: int, r: int) -> bool {
    forall|i: int, j: int|
        0 <= i < t.len() && i != r && 0 <= j < t[i].len() ==> (#[trigger] update_exact(
            t[i][j],
            t[r][j],
            t[r][c],
            t[i][c],
        )) is Some
}

/// The rules select a pivot on `t` whose ratio test or elimination does not
/// fit.
pub open spec fn pivot_overflows(t: Table) -> bool {
    ||| exists|c: int, i: int, k: int| #[trigger] ratio_overflow(t, c, i, k)
    ||| exists|c: int, r: int| entering(t, c) && #[trigger] leaving(t, c, r) && !row_ops_fit(t, c, r)
}

/// `u` is `t` after eliminating column `c` from every row but `r`.
pub open spec fn reduced(t: Table, c: int, r: int, u: Table) -> bool {
    &&& u.len() == t.len()
    &&& forall|i: int| 0 <= i < t.len() ==> #[trigger] u[i].len() == t[i].len()
    &&& u[r] == t[r]
    &&& forall|i: int, j: int|
        0 <= i < t.len() && i != r && 0 <= j < t[i].len() ==> (#[trigger] u[i][j]).same(
            pivot_update(t[i][j], t[r][j], t[r][c], t[i][c]),
        )
}

/// One pivot chosen by the selection rules, then applied.
pub open spec fn step(t: Table, p: (int, int), u: Table) -> bool {
    &&& entering(t, p.0)
    &&& leaving(t, p.0, p.1)
    &&& reduced(t, p.0, p.1, u)
    &&& reduced_exact(t, p.0, p.1, u)
    &&& is_rect(t)
    &&& valid_table(t)
    &&& valid_table(u)
}

pub open spec fn pivot_run(trace: Seq<Table>, pivots: Seq<(int, int)>) -> bool {
    &&& trace.len() == pivots.len() + 1
    &&& forall|k: int| 0 <= k < pivots.len() ==> #[trigger] step(trace[k], pivots[k], trace[k + 1])
}

/// `end` is reached from `start` by at most `limit` pivots of the selection
/// rules.
pub open spec fn reaches_within(start: Table, end: Table, limit: nat) -> bool {
    exists|n: nat| n <= limit && #[trigger] reaches(start, end, n)
}

/// `end` is reached from `start` by `n` pivots of the selection rules.
pub open spec fn reaches(start: Table, end: Table, n: nat) -> bool {
    exists|trace: Seq<Table>, pivots: Seq<(int, int)>|
        #[trigger] pivot_run(trace, pivots) && trace[0] == start && trace.last() == end
            && pivots.len() == n
}

/// The requirements match the constraint rows, and the objective matches the
/// constraint columns (`cols`, also when there are no rows).
pub open spec fn dims_ok(obj: Seq<Frac>, constr: Table, req: Seq<Frac>, cols: int) -> bool {
    &&& req.len() == constr.len()
    &&& cols == obj.len()
    &&& forall|i: int| 0 <= i < constr.len() ==> #[trigger] constr[i].len() == obj.len()
}

/// The entry at row `i`, column `j` of the starting tableau.
pub open spec fn initial_entry(obj: Seq<Frac>, constr: Table, req: Seq<Frac>, i: int, j: int) -> Frac {
    let nv = obj.len() as int;
    let m = constr.len() as int;
    if i == 0 {
        if j == 0 {
            Frac::of_int(1)
        } else if j <= nv {
            obj[j - 1].negated()
        } else {
            Frac::of_int(0)
        }
    } else if j == nv + m + 1 {
        req[i - 1]
    } else if 1 <= j <= nv {
        constr[i - 1][j - 1]
    } else if j == nv + i {
        Frac::of_int(1)
    } else {
        Frac::of_int(0)
    }
}

/// The starting tableau: objective row, then one row per constraint with its
/// slack column and requirement.
pub open spec fn initial_table(obj: Seq<Frac>, constr: Table, req: Seq<Frac>) -> Table {
    Seq::new(
        (constr.len() + 1) as nat,
        |i: int|
            Seq::new(
                (obj.len() + constr.len() + 2) as nat,
                |j: int| initial_entry(obj, constr, req, i, j),
            ),
    )
}

pub const PIVOTS_PER_DIMENSION: usize = 10;

/// How many pivots a solve may take before it gives up.
pub open spec fn pivot_limit(nv: nat, m: nat) -> nat {
    if nv + m <= usize::MAX / PIVOTS_PER_DIMENSION {
        ((nv + m) * PIVOTS_PER_DIMENSION) as nat
    } else {
        usize::MAX as nat
    }
}

/// The pivot cap for `nv` variables and `m` constraints.
pub fn pivot_cap(nv: usize, m: usize) -> (r: usize)
    ensures
        r == pivot_limit(nv as nat, m as nat),
{
    if nv > usize::MAX - m {
        return usize::MAX;
    }
    let dims: usize = nv + m;
    if dims <= usize::MAX / PIVOTS_PER_DIMENSION {
        dims * PIVOTS_PER_DIMENSION
    } else {
        usize::MAX
    }
}

/// Picks the next pivot: the entering column by the most negative
/// objective-row entry, the leaving row by the smallest ratio of right-hand
/// side to a positive entry in that column, first one on ties.
pub fn get_next_pivot(table: &DenseMatrix) -> (r: Result<PivotStep, SimplexError>)
    requires
        is_rect(model(table)),
    ensures
        r matches Ok(s) ==> selects(model(table), s),
        r matches Err(e) ==> e == SimplexError::Overflow && exists|c: int, i: int, k: int|
            #[trigger] ratio_overflow(model(table), c, i, k),
{
    let ghost m = model(table);
    let nrows: usize = table.nrows();
    let ncols: usize = table.ncols();
    let last: usize = ncols - 1;
    assert(m[0].len() == ncols);
    let mut entry: Option<usize> = None;
    let mut j: usize = 1;
    while j < last
        invariant
            m == model(table),
            is_rect(m),
            nrows == m.len(),
            ncols == m[0].len(),
            last == last_col(m),
            1 <= j <= last,
            forall|k: int| 1 <= k < j ==> (#[trigger] m[0][k]).valid(),
            entry is None ==> forall|k: int| 1 <= k < j ==> (#[trigger] m[0][k]).n >= 0,
            entry matches Some(c) ==> {
                &&& 1 <= c < j
                &&& m[0][c as int].n < 0
                &&& forall|k: int| 1 <= k < j ==> m[0][c as int].le(#[trigger] m[0][k])
                &&& forall|k: int| 1 <= k < c ==> m[0][c as int].lt(#[trigger] m[0][k])
            },
        decreases last - j,
    {
        let v: Rational = table.get(0, j);
        // `denom` states that the denominator is positive.
        let _ = v.denom();
        assert(v@ == m[0][j as int]);
        if v.is_negative() {
            match entry {
                None => {
                    assert forall|k: int| 1 <= k < j implies v@.lt(#[trigger] m[0][k]) by {
                        lemma_neg_lt_nonneg(v@, m[0][k]);
                    }
                    entry = Some(j);
                },
                Some(c) => {
                    let w: Rational = table.get(0, c);
                    if v.lt(&w) {
                        assert forall|k: int| 1 <= k < j implies v@.lt(#[trigger] m[0][k]) by {
                            lemma_lt_le_trans(v@, w@, m[0][k]);
                        }
                        entry = Some(j);
                    }
                },
            }
        } else {
            proof {
                if let Some(c) = entry {
                    lemma_neg_lt_nonneg(m[0][c as int], v@);
                }
            }
        }
        j += 1;
    }
    let c: usize = match entry {
        None => {
            return Ok(PivotStep::Optimal);
        },
        Some(c) => c,
    };
    assert(entering(m, c as int));
    let mut best: Option<usize> = None;
    let mut i: usize = 1;
    while i < nrows
        invariant
            m == model(table),
            is_rect(m),
            nrows == m.len(),
            ncols == m[0].len(),
            last == last_col(m),
            entering(m, c as int),
            1 <= i <= nrows,
            forall|k: int| 1 <= k < i && #[trigger] candidate(m, c as int, k) ==> ratio(m, c as int, k).valid(),
            best is None ==> forall|k: int| 1 <= k < i ==> !#[trigger] candidate(m, c as int, k),
            best matches Some(b) ==> {
                &&& candidate(m, c as int, b as int)
                &&& b < i
                &&& forall|k: int| 1 <= k < i && #[trigger] candidate(m, c as int, k) ==> ratio(m, c as int, b as int).le(ratio(m, c as int, k))
                &&& forall|k: int| 1 <= k < b && #[trigger] candidate(m, c as int, k) ==> ratio(m, c as int, b as int).lt(ratio(m, c as int, k))
            },
        decreases nrows - i,
    {
        assert(m[i as int].len() == ncols);
        let a: Rational = table.get(i, c);
        let b: Rational = table.get(i, last);
        assert(a@ == m[i as int][c as int]);
        assert(b@ == m[i as int][last as int]);
        let _ = b.denom();
        if a.is_positive() && !b.is_negative() {
            proof {
                lemma_mul_pos(b@.d, a@.n);
            }
            match best {
                None => {
                    best = Some(i);
                },
                Some(p) => {
                    assert(m[p as int].len() == ncols);
                    let pb: Rational = table.get(p, last);
                    let pa: Rational = table.get(p, c);
                    assert(pa@ == m[p as int][c as int]);
                    assert(pb@ == m[p as int][last as int]);
                    match ratio_lt(&b, &a, &pb, &pa) {
                        None => {
                            assert(ratio_overflow(m, c as int, i as int, p as int));
                            return Err(SimplexError::Overflow);
                        },
                        Some(true) => {
                            assert forall|k: int| 1 <= k < i && #[trigger] candidate(m, c as int, k) implies ratio(m, c as int, i as int).lt(ratio(m, c as int, k)) by {
                                lemma_lt_le_trans(ratio(m, c as int, i as int), ratio(m, c as int, p as int), ratio(m, c as int, k));
                            }
                            best = Some(i);
                        },
                        Some(false) => {},
                    }
                },
            }
        }
        i += 1;
    }
    match best {
        None => {
            assert(unbounded(m, c as int));
            Ok(PivotStep::Unbounded)
        },
        Some(p) => Ok(PivotStep::Pivot { col: c, row: p }),
    }
}

/// One entry after elimination: `x + (pj / pc) * -t`, reduced.
fn reduce_entry(x: &Rational, pj: &Rational, pc: &Rational, t: &Rational) -> (r: Option<Rational>)
    requires
        pc@.n != 0,
    ensures
        r matches Some(e) ==> e@.same(pivot_update(x@, pj@, pc@, t@)),
        (small(x@) && small(pj@) && small(pc@) && small(t@)) ==> r is Some,
        r is Some <==> update_exact(x@, pj@, pc@, t@) is Some,
        r matches Some(e) ==> update_exact(x@, pj@, pc@, t@) == Some(e@),
{
    // `denom` states that each denominator is positive.
    let _ = x.denom();
    let _ = pj.denom();
    let _ = pc.denom();
    let _ = t.denom();
    let ghost all_small = small(x@) && small(pj@) && small(pc@) && small(t@);
    let ghost b15: int = 0x8000;
    proof {
        if all_small {
            lemma_mul_magnitude(pj@.n, pc@.d, b15, b15);
            lemma_mul_magnitude(pj@.d, pc@.n, b15, b15);
        }
    }
    let q = match pj.over(pc) {
        Some(q) => q,
        None => {
            return None;
        },
    };
    let nt = match t.negated() {
        Some(nt) => nt,
        None => {
            return None;
        },
    };
    proof {
        if all_small {
            lemma_mul_magnitude(q@.n, nt@.n, b15 * b15, b15);
            lemma_mul_magnitude(q@.d, nt@.d, b15 * b15, b15);
        }
    }
    let prod = match q.times(&nt) {
        Some(p) => p,
        None => {
            return None;
        },
    };
    proof {
        if all_small {
            lemma_mul_magnitude(x@.n, prod@.d, b15, b15 * b15 * b15);
            lemma_mul_magnitude(prod@.n, x@.d, b15 * b15 * b15, b15);
            lemma_mul_magnitude(x@.d, prod@.d, b15, b15 * b15 * b15);
        }
    }
    let e = match x.plus(&prod) {
        Some(e) => e,
        None => {
            return None;
        },
    };
    proof {
        let qq = pj@.over(pc@);
        let tt = t@.negated();
        lemma_mul_nonzero(pj@.d, pc@.n);
        lemma_times_congr(q@, qq, tt);
        lemma_mul_pos(q@.d, tt.d);
        lemma_mul_nonzero(qq.d, tt.d);
        lemma_same_trans(prod@, q@.times(tt), qq.times(tt));
        lemma_plus_congr(x@, prod@, qq.times(tt));
        lemma_mul_pos(x@.d, prod@.d);
        lemma_mul_nonzero(x@.d, qq.times(tt).d);
        lemma_same_trans(e@, x@.plus(prod@), x@.plus(qq.times(tt)));
    }
    Some(e)
}

/// Eliminates the pivot's column from every row but the pivot row, which is
/// kept as it is. `pivot` is `(column, row)`.
pub fn apply_row_operations(pivot: (usize, usize), table: DenseMatrix) -> (r: Result<
    DenseMatrix,
    SimplexError,
>)
    requires
        is_rect(model(&table)),
        pivot.0 < model(&table)[0].len(),
        pivot.1 < model(&table).len(),
        model(&table)[pivot.1 as int][pivot.0 as int].n != 0,
    ensures
        r matches Ok(u) ==> reduced(model(&table), pivot.0 as int, pivot.1 as int, model(&u)),
        r matches Err(e) ==> e == SimplexError::Overflow,
        small_table(model(&table)) ==> r is Ok,
        r matches Ok(u) ==> reduced_exact(model(&table), pivot.0 as int, pivot.1 as int, model(&u)),
        r is Ok <==> row_ops_fit(model(&table), pivot.0 as int, pivot.1 as int),
        r matches Ok(u) ==> (valid_table(model(&table)) ==> valid_table(model(&u))),
{
    let ghost m = model(&table);
    let mut work = table;
    let (c, r) = pivot;
    let nrows: usize = work.nrows();
    let ncols: usize = work.ncols();
    assert(m[0].len() == ncols);
    assert(valid_table(m) ==> forall|k: int, l: int|
        0 <= k < nrows && 0 <= l < ncols ==> (#[trigger] entries(work)[k][l])@.valid()) by {
        if valid_table(m) {
            assert forall|k: int, l: int| 0 <= k < nrows && 0 <= l < ncols implies (#[trigger] entries(work)[k][l])@.valid() by {
                assert(m[k].len() == ncols);
                assert(m[k][l] == entries(work)[k][l]@);
            }
        }
    }
    let pc: Rational = work.get(r, c);
    assert(pc@ == m[r as int][c as int]);
    let mut i: usize = 0;
    while i < nrows
        invariant
            m == model(&table),
            c == pivot.0 && r == pivot.1,
            valid_table(m) ==> forall|k: int, l: int|
                0 <= k < nrows && 0 <= l < ncols ==> (#[trigger] entries(work)[k][l])@.valid(),
            is_rect(m),
            nrows == m.len(),
            ncols == m[0].len(),
            c < ncols,
            r < nrows,
            pc@ == m[r as int][c as int],
            pc@.n != 0,
            i <= nrows,
            entries(work).len() == nrows,
            forall|k: int| 0 <= k < nrows ==> (#[trigger] entries(work)[k]).len() == ncols,
            forall|j: int| 0 <= j < ncols ==> (#[trigger] entries(work)[r as int][j])@ == m[r as int][j],
            forall|k: int, j: int|
                i <= k < nrows && 0 <= j < ncols ==> (#[trigger] entries(work)[k][j])@ == m[k][j],
            forall|k: int, j: int|
                0 <= k < i && k != r && 0 <= j < ncols ==> (#[trigger] entries(work)[k][j])@.same(
                    pivot_update(m[k][j], m[r as int][j], m[r as int][c as int], m[k][c as int]),
                ),
            forall|k: int, j: int|
                0 <= k < i && k != r && 0 <= j < ncols ==> update_exact(
                    m[k][j],
                    m[r as int][j],
                    m[r as int][c as int],
                    m[k][c as int],
                ) == Some((#[trigger] entries(work)[k][j])@),
        decreases nrows - i,
    {
        if i != r {
            let target: Rational = work.get(i, c);
            assert(target@ == m[i as int][c as int]);
            let mut j: usize = 0;
            while j < ncols
                invariant
                    m == model(&table),
                    c == pivot.0 && r == pivot.1,
                    valid_table(m) ==> forall|k: int, l: int|
                        0 <= k < nrows && 0 <= l < ncols ==> (#[trigger] entries(work)[k][l])@.valid(),
                    is_rect(m),
                    nrows == m.len(),
                    ncols == m[0].len(),
                    c < ncols,
                    r < nrows,
                    i < nrows,
                    i != r,
                    pc@ == m[r as int][c as int],
                    pc@.n != 0,
                    target@ == m[i as int][c as int],
                    j <= ncols,
                    entries(work).len() == nrows,
                    forall|k: int| 0 <= k < nrows ==> (#[trigger] entries(work)[k]).len() == ncols,
                    forall|l: int| 0 <= l < ncols ==> (#[trigger] entries(work)[r as int][l])@ == m[r as int][l],
                    forall|k: int, l: int|
                        i < k < nrows && 0 <= l < ncols ==> (#[trigger] entries(work)[k][l])@ == m[k][l],
                    forall|l: int| j <= l < ncols ==> (#[trigger] entries(work)[i as int][l])@ == m[i as int][l],
                    forall|l: int|
                        0 <= l < j ==> (#[trigger] entries(work)[i as int][l])@.same(
                            pivot_update(m[i as int][l], m[r as int][l], m[r as int][c as int], m[i as int][c as int]),
                        ),
                    forall|k: int, l: int|
                        0 <= k < i && k != r && 0 <= l < ncols ==> (#[trigger] entries(work)[k][l])@.same(
                            pivot_update(m[k][l], m[r as int][l], m[r as int][c as int], m[k][c as int]),
                        ),
                    forall|k: int, l: int|
                        0 <= k < i && k != r && 0 <= l < ncols ==> update_exact(
                            m[k][l],
                            m[r as int][l],
                            m[r as int][c as int],
                            m[k][c as int],
                        ) == Some((#[trigger] entries(work)[k][l])@),
                    forall|l: int|
                        0 <= l < j ==> update_exact(
                            m[i as int][l],
                            m[r as int][l],
                            m[r as int][c as int],
                            m[i as int][c as int],
                        ) == Some((#[trigger] entries(work)[i as int][l])@),
                decreases ncols - j,
            {
                let x: Rational = work.get(i, j);
                let pj: Rational = work.get(r, j);
                match reduce_entry(&x, &pj, &pc, &target) {
                    Some(e) => {
                        // `denom` states that the denominator is positive.
                        let _ = e.denom();
                        work.put(i, j, e);
                    },
                    None => {
                        assert(x@ == m[i as int][j as int]);
                        assert(pj@ == m[r as int][j as int]);
                        assert(m[i as int].len() == ncols && m[r as int].len() == ncols);
                        assert(update_exact(
                            m[i as int][j as int],
                            m[r as int][j as int],
                            m[r as int][c as int],
                            m[i as int][c as int],
                        ) is None);
                        assert(!row_ops_fit(m, c as int, r as int));
                        return Err(SimplexError::Overflow);
                    },
                }
                j += 1;
            }
        }
        i += 1;
    }
    let ghost u = model(&work);
    assert(u[r as int] =~= m[r as int]);
    assert(valid_table(m) ==> valid_table(u)) by {
        if valid_table(m) {
            assert forall|k: int, l: int| 0 <= k < u.len() && 0 <= l < u[k].len() implies (#[trigger] u[k][l]).valid() by {
                assert(u[k][l] == entries(work)[k][l]@);
            }
        }
    }
    assert forall|k: int, j: int|
        0 <= k < m.len() && k != r && 0 <= j < m[k].len() implies (#[trigger] update_exact(
            m[k][j],
            m[r as int][j],
            m[r as int][c as int],
            m[k][c as int],
        )) is Some by {
        assert(u[k][j] == entries(work)[k][j]@);
    }
    Ok(work)
}

/// The outcome of one round of the solve loop.
pub enum Progress {
    /// The tableau was already optimal; it is handed back unchanged.
    Optimal(DenseMatrix),
    /// The rules chose the pivot at `col`, `row`, and `table` is the result.
    Pivoted { table: DenseMatrix, col: usize, row: usize },
}

/// One round of the solve loop: select a pivot and apply it.
pub fn advance(table: DenseMatrix) -> (r: Result<Progress, SimplexError>)
    requires
        is_rect(model(&table)),
        valid_table(model(&table)),
    ensures
        r matches Ok(Progress::Optimal(t)) ==> optimal(model(&table)) && model(&t) == model(&table),
        r matches Ok(Progress::Pivoted { table: u, col, row }) ==> step(
            model(&table),
            (col as int, row as int),
            model(&u),
        ) && is_rect(model(&u)),
        (r matches Err(SimplexError::Unbounded)) ==> exists|c: int| #[trigger] unbounded(model(&table), c),
        (r matches Err(SimplexError::Overflow)) ==> pivot_overflows(model(&table)),
        r matches Err(e) ==> (e == SimplexError::Unbounded || e == SimplexError::Overflow),
{
    let ghost before = model(&table);
    match get_next_pivot(&table) {
        Err(e) => {
            proof {
                let (c, i, k) = choose|c: int, i: int, k: int| #[trigger] ratio_overflow(before, c, i, k);
                assert(pivot_overflows(before));
            }
            Err(e)
        },
        Ok(PivotStep::Optimal) => Ok(Progress::Optimal(table)),
        Ok(PivotStep::Unbounded) => Err(SimplexError::Unbounded),
        Ok(PivotStep::Pivot { col, row }) => {
            match apply_row_operations((col, row), table) {
                Ok(u) => {
                    let ghost after = model(&u);
                    proof {
                        assert(after[0].len() == before[0].len());
                        assert forall|i: int| 0 <= i < after.len() implies #[trigger] after[i].len()
                            == after[0].len() by {
                            assert(after[i].len() == before[i].len());
                        }
                    }
                    Ok(Progress::Pivoted { table: u, col, row })
                },
                Err(e) => {
                    assert(!row_ops_fit(before, col as int, row as int));
                    assert(pivot_overflows(before));
                    Err(e)
                },
            }
        },
    }
}

/// Builds the starting tableau from the objective, the constraint rows and
/// the requirements.
pub fn create_augmented_mat(obj: Vec<Rational>, constr: DenseMatrix, req: Vec<Rational>) -> (r:
    Result<DenseMatrix, SimplexError>)
    requires
        (model(&constr).len() + 1) * (obj@.len() + model(&constr).len() + 2) <= isize::MAX / 16,
    ensures
        (r matches Err(SimplexError::InvalidDimensions)) <==> !dims_ok(row_model(&obj), model(&constr), row_model(&req), columns(constr) as int),
        (r matches Err(SimplexError::Overflow)) <==> (dims_ok(row_model(&obj), model(&constr), row_model(&req), columns(constr) as int) && exists|k: int| 0 <= k < obj@.len() && (#[trigger] obj@[k])@.n == i64::MIN),
        r matches Err(e) ==> (e == SimplexError::InvalidDimensions || e == SimplexError::Overflow),
        r matches Ok(t) ==> model(&t) == initial_table(
            row_model(&obj),
            model(&constr),
            row_model(&req),
        ),
        r matches Ok(t) ==> valid_table(model(&t)),
        r matches Ok(t) ==> {
            let nv = obj@.len() as int;
            let m = model(&constr).len() as int;
            &&& model(&t).len() == m + 1
            &&& forall|i: int| 0 <= i <= m ==> (#[trigger] model(&t)[i]).len() == m + nv + 2
            &&& forall|i: int, j: int|
                1 <= i <= m && nv + 1 <= j <= nv + m ==> (#[trigger] model(&t)[i][j]) == (if j == nv
                    + i {
                    Frac::of_int(1)
                } else {
                    Frac::of_int(0)
                })
        },
{
    let ghost om = row_model(&obj);
    let ghost cm = model(&constr);
    let ghost rm = row_model(&req);
    let nv: usize = obj.len();
    let mrows: usize = constr.nrows();
    if req.len() != mrows {
        assert(!dims_ok(om, cm, rm, columns(constr) as int));
        return Err(SimplexError::InvalidDimensions);
    }
    if constr.ncols() != nv {
        assert(!dims_ok(om, cm, rm, columns(constr) as int));
        return Err(SimplexError::InvalidDimensions);
    }
    assert(dims_ok(om, cm, rm, columns(constr) as int));
    proof {
        lemma_size_bound(mrows as int, nv as int);
    }
    let ncols: usize = nv + mrows + 2;
    let mut table = DenseMatrix::filled(mrows + 1, ncols, Rational::from_int(0));
    let mut i: usize = 0;
    while i <= mrows
        invariant
            om == row_model(&obj),
            cm == model(&constr),
            rm == row_model(&req),
            dims_ok(om, cm, rm, columns(constr) as int),
            nv == om.len(),
            mrows == cm.len(),
            ncols == nv + mrows + 2,
            i <= mrows + 1,
            entries(table).len() == mrows + 1,
            forall|k: int| 0 <= k <= mrows ==> (#[trigger] entries(table)[k]).len() == ncols,
            i > 0 ==> forall|l: int| 0 <= l < nv ==> (#[trigger] om[l]).n != i64::MIN,
            forall|k: int, l: int| 0 <= k < i && 0 <= l < ncols ==> (#[trigger] entries(table)[k][l])@.valid(),
            forall|k: int, l: int|
                0 <= k < i && 0 <= l < ncols ==> (#[trigger] entries(table)[k][l])@ == initial_entry(
                    om,
                    cm,
                    rm,
                    k,
                    l,
                ),
        decreases mrows + 1 - i,
    {
        let mut j: usize = 0;
        while j < ncols
            invariant
                om == row_model(&obj),
                cm == model(&constr),
                rm == row_model(&req),
                dims_ok(om, cm, rm, columns(constr) as int),
                nv == om.len(),
                mrows == cm.len(),
                ncols == nv + mrows + 2,
                i <= mrows,
                j <= ncols,
                entries(table).len() == mrows + 1,
                forall|k: int| 0 <= k <= mrows ==> (#[trigger] entries(table)[k]).len() == ncols,
                i > 0 ==> forall|l: int| 0 <= l < nv ==> (#[trigger] om[l]).n != i64::MIN,
                i == 0 ==> forall|l: int| 0 <= l < nv && l + 1 < j ==> (#[trigger] om[l]).n != i64::MIN,
                forall|k: int, l: int| 0 <= k < i && 0 <= l < ncols ==> (#[trigger] entries(table)[k][l])@.valid(),
                forall|l: int| 0 <= l < j ==> (#[trigger] entries(table)[i as int][l])@.valid(),
                forall|k: int, l: int|
                    0 <= k < i && 0 <= l < ncols ==> (#[trigger] entries(table)[k][l])@ == initial_entry(
                        om,
                        cm,
                        rm,
                        k,
                        l,
                    ),
                forall|l: int| 0 <= l < j ==> (#[trigger] entries(table)[i as int][l])@ == initial_entry(om, cm, rm, i as int, l),
            decreases ncols - j,
        {
            let e: Rational = if i == 0 {
                if j == 0 {
                    Rational::from_int(1)
                } else if j <= nv {
                    assert(om[j - 1] == obj@[j - 1]@);
                    match obj[j - 1].negated() {
                        Some(x) => x,
                        None => {
                            assert(om[j - 1].n == i64::MIN);
                            return Err(SimplexError::Overflow);
                        },
                    }
                } else {
                    Rational::from_int(0)
                }
            } else if j == nv + mrows + 1 {
                req[i - 1]
            } else if 1 <= j && j <= nv {
                assert(cm[i - 1].len() == nv);
                constr.get(i - 1, j - 1)
            } else if j == nv + i {
                Rational::from_int(1)
            } else {
                Rational::from_int(0)
            };
            // `denom` states that the denominator is positive.
            let _ = e.denom();
            table.put(i, j, e);
            j += 1;
        }
        i += 1;
    }
    let ghost t = model(&table);
    let ghost it = initial_table(om, cm, rm);
    assert forall|k: int| 0 <= k < t.len() implies #[trigger] t[k] =~= it[k] by {
        assert forall|l: int| 0 <= l < t[k].len() implies t[k][l] == it[k][l] by {
            assert(t[k][l] == entries(table)[k][l]@);
        }
    }
    assert(t =~= it);
    assert forall|k: int, l: int| 0 <= k < t.len() && 0 <= l < t[k].len() implies (#[trigger] t[k][l]).valid() by {
        assert(t[k][l] == entries(table)[k][l]@);
    }
    assert forall|k: int| 0 <= k < obj@.len() implies (#[trigger] obj@[k])@.n != i64::MIN by {
        assert(om[k] == obj@[k]@);
    }
    Ok(table)
}

/// Solves `max obj·x` subject to `constr·x <= req`, `x >= 0`, by pivoting
/// from the starting tableau until the selection rules report it optimal.
pub fn simplex_method(constr: DenseMatrix, req: Vec<Rational>, obj: Vec<Rational>) -> (r: Result<
    DenseMatrix,
    SimplexError,
>)
    requires
        (model(&constr).len() + 1) * (obj@.len() + model(&constr).len() + 2) <= isize::MAX / 16,
    ensures
        (r matches Err(SimplexError::InvalidDimensions)) <==> !dims_ok(row_model(&obj), model(&constr), row_model(&req), columns(constr) as int),
        r matches Ok(t) ==> optimal(model(&t)),
        r matches Ok(t) ==> reaches_within(
            initial_table(row_model(&obj), model(&constr), row_model(&req)),
            model(&t),
            pivot_limit(obj@.len(), model(&constr).len()),
        ),
        (r matches Err(SimplexError::Unbounded)) ==> exists|u: Table, n: nat|
            #[trigger] reaches(initial_table(row_model(&obj), model(&constr), row_model(&req)), u, n)
                && (exists|c: int| #[trigger] unbounded(u, c)),
        (dims_ok(row_model(&obj), model(&constr), row_model(&req), columns(constr) as int) && (forall|k: int|
            0 <= k < obj@.len() ==> (#[trigger] obj@[k])@.n != i64::MIN) && optimal(
            initial_table(row_model(&obj), model(&constr), row_model(&req)),
        )) ==> (r matches Ok(t) && model(&t) == initial_table(
            row_model(&obj),
            model(&constr),
            row_model(&req),
        )),
        (r matches Err(SimplexError::Overflow)) ==> (exists|k: int|
            0 <= k < obj@.len() && (#[trigger] obj@[k])@.n == i64::MIN) || (exists|u: Table, n: nat|
            n <= pivot_limit(obj@.len(), model(&constr).len()) && #[trigger] reaches(
                initial_table(row_model(&obj), model(&constr), row_model(&req)),
                u,
                n,
            ) && pivot_overflows(u)),
        (r matches Err(SimplexError::IterationLimitExceeded)) ==> exists|u: Table|
            #[trigger] reaches(
                initial_table(row_model(&obj), model(&constr), row_model(&req)),
                u,
                pivot_limit(obj@.len(), model(&constr).len()),
            ) && (exists|c: int, row: int| entering(u, c) && #[trigger] leaving(u, c, row)),
{
    let ghost start = initial_table(row_model(&obj), model(&constr), row_model(&req));
    let ghost nv = obj@.len();
    let ghost mr = model(&constr).len();
    let ghost om = row_model(&obj);
    let ghost cm = model(&constr);
    let ghost rm = row_model(&req);
    proof {
        lemma_size_bound(model(&constr).len() as int, obj@.len() as int);
    }
    let limit: usize = pivot_cap(obj.len(), constr.nrows());
    let mut table = match create_augmented_mat(obj, constr, req) {
        Ok(t) => t,
        Err(e) => {
            return Err(e);
        },
    };
    let ghost mut trace: Seq<Table> = seq![model(&table)];
    let ghost mut pivots: Seq<(int, int)> = Seq::empty();
    assert(is_rect(model(&table)));
    let mut count: usize = 0;
    loop
        invariant
            om == row_model(&obj),
            cm == model(&constr),
            rm == row_model(&req),
            nv == obj@.len(),
            mr == model(&constr).len(),
            start == initial_table(om, cm, rm),
            dims_ok(om, cm, rm, columns(constr) as int),
            limit == pivot_limit(nv, mr),
            count <= limit,
            is_rect(model(&table)),
            valid_table(model(&table)),
            pivot_run(trace, pivots),
            trace[0] == start,
            trace.last() == model(&table),
            pivots.len() == count,
            count == 0 ==> model(&table) == start,
            optimal(start) ==> count == 0,
        decreases limit - count,
    {
        let step_kind = match get_next_pivot(&table) {
            Ok(s) => s,
            Err(e) => {
                proof {
                    let t = model(&table);
                    let (c, i, k) = choose|c: int, i: int, k: int| #[trigger] ratio_overflow(t, c, i, k);
                    assert(t[0][c].n < 0);
                    assert(pivot_overflows(t));
                    assert(reaches(start, t, count as nat));
                }
                return Err(e);
            },
        };
        match step_kind {
            PivotStep::Optimal => {
                assert(reaches(start, model(&table), count as nat));
                assert(reaches_within(start, model(&table), limit as nat));
                return Ok(table);
            },
            PivotStep::Unbounded => {
                assert(reaches(start, model(&table), count as nat));
                proof {
                    let c = choose|c: int| #[trigger] unbounded(model(&table), c);
                    assert(model(&table)[0][c].n < 0);
                }
                return Err(SimplexError::Unbounded);
            },
            PivotStep::Pivot { col, row } => {
                assert(model(&table)[0][col as int].n < 0);
                if count == limit {
                    assert(reaches(start, model(&table), count as nat));
                    return Err(SimplexError::IterationLimitExceeded);
                }
                let ghost before = model(&table);
                table = match apply_row_operations((col, row), table) {
                    Ok(t) => t,
                    Err(e) => {
                        assert(reaches(start, before, count as nat));
                        assert(!row_ops_fit(before, col as int, row as int));
                        assert(pivot_overflows(before));
                        return Err(e);
                    },
                };
                let ghost after = model(&table);
                proof {
                    assert(step(before, (col as int, row as int), after));
                    let old_trace = trace;
                    let old_pivots = pivots;
                    trace = trace.push(after);
                    pivots = pivots.push((col as int, row as int));
                    assert forall|k: int| 0 <= k < pivots.len() implies #[trigger] step(
                        trace[k],
                        pivots[k],
                        trace[k + 1],
                    ) by {
                        if k < old_pivots.len() {
                            assert(trace[k] == old_trace[k]);
                            assert(trace[k + 1] == old_trace[k + 1]);
                            assert(pivots[k] == old_pivots[k]);
                        }
                    }
                    assert(is_rect(after)) by {
                        assert(after[0].len() == before[0].len());
                        assert forall|i: int| 0 <= i < after.len() implies #[trigger] after[i].len()
                            == after[0].len() by {
                            assert(after[i].len() == before[i].len());
                        }
                    }
                }
                count += 1;
            },
        }
    }
}

/// Column `k` is a unit column with its one in row `s`.
pub open spec fn unit_column(t: Table, k: int, s: int) -> bool {
    &&& t[s][k].n == t[s][k].d
    &&& forall|i: int| 0 <= i < t.len() && i != s ==> (#[trigger] t[i][k]).n == 0
}

proof fn lemma_size_bound(m: int, nv: int)
    requires
        0 <= m,
        0 <= nv,
        (m + 1) * (nv + m + 2) <= isize::MAX / 16,
    ensures
        nv + m + 2 <= isize::MAX / 16,
{
    assert(nv + m + 2 <= (m + 1) * (nv + m + 2)) by (nonlinear_arith)
        requires
            0 <= m,
            0 <= nv,
    ;
}

proof fn lemma_le_same(a: Frac, b: Frac, c: Frac)
    requires
        a.valid(),
        b.valid(),
        c.valid(),
        a.le(b),
        c.same(b),
    ensures
        a.le(c),
{
    assert(a.n * b.d * c.d <= b.n * a.d * c.d) by (nonlinear_arith)
        requires
            a.n * b.d <= b.n * a.d,
            c.d > 0,
    ;
    assert(b.n * a.d * c.d == c.n * b.d * a.d) by (nonlinear_arith)
        requires
            c.n * b.d == b.n * c.d,
    ;
    assert(a.n * c.d <= c.n * a.d) by (nonlinear_arith)
        requires
            a.n * b.d * c.d <= c.n * b.d * a.d,
            b.d > 0,
    ;
}

proof fn lemma_lt_same(a: Frac, b: Frac, c: Frac)
    requires
        a.valid(),
        b.valid(),
        c.valid(),
        a.lt(b),
        c.same(b),
    ensures
        a.lt(c),
{
    assert(a.n * b.d * c.d < b.n * a.d * c.d) by (nonlinear_arith)
        requires
            a.n * b.d < b.n * a.d,
            c.d > 0,
    ;
    assert(b.n * a.d * c.d == c.n * b.d * a.d) by (nonlinear_arith)
        requires
            c.n * b.d == b.n * c.d,
    ;
    assert(a.n * c.d < c.n * a.d) by (nonlinear_arith)
        requires
            a.n * b.d * c.d < c.n * b.d * a.d,
            b.d > 0,
    ;
}

/// A pivot chosen by the selection rules never lowers the objective value
/// (row 0, right-hand-side column), and raises it strictly when the leaving
/// row's right-hand side is positive (a pivot that is not degenerate).
pub proof fn lemma_objective_non_decreasing(t: Table, c: int, r: int, u: Table)
    requires
        is_rect(t),
        valid_table(t),
        valid_table(u),
        entering(t, c),
        leaving(t, c, r),
        reduced(t, c, r, u),
    ensures
        t[0][last_col(t)].le(u[0][last_col(u)]),
        t[r][last_col(t)].n > 0 ==> t[0][last_col(t)].lt(u[0][last_col(u)]),
{
    let l = last_col(t);
    assert(t[r].len() == t[0].len());
    let x = t[0][l];
    let pj = t[r][l];
    let pc = t[r][c];
    let tt = t[0][c];
    let q = pj.over(pc);
    let mm = q.times(tt.negated());
    let sum = x.plus(mm);
    assert(x.valid() && pj.valid() && pc.valid() && tt.valid());
    assert(mm.n >= 0 && mm.d > 0) by (nonlinear_arith)
        requires
            mm.n == (pj.n * pc.d) * (-tt.n),
            mm.d == (pj.d * pc.n) * tt.d,
            pj.n >= 0,
            pc.d > 0,
            tt.n < 0,
            pj.d > 0,
            pc.n > 0,
            tt.d > 0,
    ;
    assert(x.le(sum)) by (nonlinear_arith)
        requires
            sum.n == x.n * mm.d + mm.n * x.d,
            sum.d == x.d * mm.d,
            mm.n >= 0,
            x.d > 0,
    ;
    assert(sum.d > 0) by (nonlinear_arith)
        requires
            sum.d == x.d * mm.d,
            mm.d > 0,
            x.d > 0,
    ;
    assert(u[0].len() == t[0].len());
    let v = u[0][l];
    assert(v.same(sum));
    assert(v.valid());
    lemma_le_same(x, sum, v);
    if pj.n > 0 {
        assert(mm.n > 0) by (nonlinear_arith)
            requires
                mm.n == (pj.n * pc.d) * (-tt.n),
                pj.n > 0,
                pc.d > 0,
                tt.n < 0,
        ;
        assert(x.lt(sum)) by (nonlinear_arith)
            requires
                sum.n == x.n * mm.d + mm.n * x.d,
                sum.d == x.d * mm.d,
                mm.n > 0,
                x.d > 0,
        ;
        lemma_lt_same(x, sum, v);
    }
}

/// When the entering column has no row that limits it, the selection rules
/// admit no outcome but `Unbounded`: neither optimal nor a pivot.
pub proof fn lemma_unbounded_only(t: Table, c: int, s: PivotStep)
    requires
        unbounded(t, c),
        selects(t, s),
    ensures
        s == PivotStep::Unbounded,
{
    match s {
        PivotStep::Optimal => {
            assert(t[0][c].n >= 0);
        },
        PivotStep::Pivot { col, row } => {
            let k = col as int;
            if k < c {
                assert(t[0][c].lt(t[0][k]));
                assert(t[0][k].le(t[0][c]));
            } else if k > c {
                assert(t[0][k].lt(t[0][c]));
                assert(t[0][c].le(t[0][k]));
            }
            assert(candidate(t, c, row as int));
        },
        PivotStep::Unbounded => {},
    }
}

/// Along any run of the solver the objective value never decreases from one
/// tableau to the next.
pub proof fn lemma_run_objective_non_decreasing(
    trace: Seq<Table>,
    pivots: Seq<(int, int)>,
    k: int,
)
    requires
        pivot_run(trace, pivots),
        0 <= k < pivots.len(),
    ensures
        trace[k][0][last_col(trace[k])].le(trace[k + 1][0][last_col(trace[k + 1])]),
{
    assert(step(trace[k], pivots[k], trace[k + 1]));
    lemma_objective_non_decreasing(trace[k], pivots[k].0, pivots[k].1, trace[k + 1]);
}

/// Along any run of the solver, each pivot keeps the unit columns whose one
/// lies off its pivot row, and zeroes its entering column off that row.
pub proof fn lemma_run_basis_kept(trace: Seq<Table>, pivots: Seq<(int, int)>, k: int)
    requires
        pivot_run(trace, pivots),
        0 <= k < pivots.len(),
    ensures
        forall|col: int, s: int|
            0 <= col < trace[k][0].len() && 0 <= s < trace[k].len() && s != pivots[k].1
                && #[trigger] unit_column(trace[k], col, s) ==> unit_column(trace[k + 1], col, s),
        forall|i: int|
            0 <= i < trace[k].len() && i != pivots[k].1 ==> (#[trigger] trace[k + 1][i][pivots[k].0]).n
                == 0,
{
    assert(step(trace[k], pivots[k], trace[k + 1]));
    lemma_basis_kept(trace[k], pivots[k].0, pivots[k].1, trace[k + 1]);
}

/// An entry whose pivot-row partner is zero keeps its value under elimination.
proof fn lemma_update_zero_partner(x: Frac, pj: Frac, pc: Frac, tt: Frac, v: Frac)
    requires
        x.valid(),
        pj.valid(),
        pc.valid(),
        tt.valid(),
        v.valid(),
        pc.n != 0,
        pj.n == 0,
        v.same(pivot_update(x, pj, pc, tt)),
    ensures
        v.same(x),
{
    let mm = pj.over(pc).times(tt.negated());
    assert(mm.n == 0 && mm.d != 0) by (nonlinear_arith)
        requires
            mm.n == (pj.n * pc.d) * (-tt.n),
            mm.d == (pj.d * pc.n) * tt.d,
            pj.n == 0,
            pj.d > 0,
            pc.n != 0,
            tt.d > 0,
    ;
    let sum = x.plus(mm);
    assert(v.n * x.d == x.n * v.d) by (nonlinear_arith)
        requires
            v.n * sum.d == sum.n * v.d,
            sum.n == x.n * mm.d + mm.n * x.d,
            sum.d == x.d * mm.d,
            mm.n == 0,
            mm.d != 0,
    ;
}

/// The entering column's entry of a non-pivot row becomes zero.
proof fn lemma_update_self(x: Frac, pc: Frac, v: Frac)
    requires
        x.valid(),
        pc.valid(),
        v.valid(),
        pc.n != 0,
        v.same(pivot_update(x, pc, pc, x)),
    ensures
        v.n == 0,
{
    let mm = pc.over(pc).times(x.negated());
    let sum = x.plus(mm);
    assert(sum.n == 0 && sum.d != 0) by (nonlinear_arith)
        requires
            mm.n == (pc.n * pc.d) * (-x.n),
            mm.d == (pc.d * pc.n) * x.d,
            sum.n == x.n * mm.d + mm.n * x.d,
            sum.d == x.d * mm.d,
            pc.n != 0,
            pc.d > 0,
            x.d > 0,
    ;
    assert(v.n == 0) by (nonlinear_arith)
        requires
            v.n * sum.d == sum.n * v.d,
            sum.n == 0,
            sum.d != 0,
    ;
}

/// A pivot keeps every unit column whose one lies off the pivot row, and
/// zeroes the entering column in every row but the pivot row.
pub proof fn lemma_basis_kept(t: Table, c: int, r: int, u: Table)
    requires
        is_rect(t),
        valid_table(t),
        valid_table(u),
        0 <= r < t.len(),
        0 <= c < t[0].len(),
        t[r][c].n != 0,
        reduced(t, c, r, u),
    ensures
        forall|k: int, s: int|
            0 <= k < t[0].len() && 0 <= s < t.len() && s != r && #[trigger] unit_column(t, k, s)
                ==> unit_column(u, k, s),
        forall|i: int| 0 <= i < t.len() && i != r ==> (#[trigger] u[i][c]).n == 0,
{
    assert(t[r].len() == t[0].len());
    assert forall|k: int, s: int|
        0 <= k < t[0].len() && 0 <= s < t.len() && s != r && #[trigger] unit_column(t, k, s)
            implies unit_column(u, k, s) by {
        assert forall|i: int| 0 <= i < t.len() && i != r implies (#[trigger] u[i][k]).same(t[i][k]) by {
            assert(t[i].len() == t[0].len());
            assert(u[i].len() == t[0].len());
            lemma_update_zero_partner(t[i][k], t[r][k], t[r][c], t[i][c], u[i][k]);
        }
        assert(t[s].len() == t[0].len());
        assert(u[s][k].n == u[s][k].d) by (nonlinear_arith)
            requires
                u[s][k].n * t[s][k].d == t[s][k].n * u[s][k].d,
                t[s][k].n == t[s][k].d,
                t[s][k].d > 0,
        ;
        assert forall|i: int| 0 <= i < u.len() && i != s implies (#[trigger] u[i][k]).n == 0 by {
            if i != r {
                assert(t[i].len() == t[0].len());
                assert(u[i][k].n == 0) by (nonlinear_arith)
                    requires
                        u[i][k].n * t[i][k].d == t[i][k].n * u[i][k].d,
                        t[i][k].n == 0,
                        t[i][k].d > 0,
                ;
            }
        }
    }
    assert forall|i: int| 0 <= i < t.len() && i != r implies (#[trigger] u[i][c]).n == 0 by {
        assert(t[i].len() == t[0].len());
        assert(u[i].len() == t[0].len());
        lemma_update_self(t[i][c], t[r][c], u[i][c]);
    }
}

} // verus!
