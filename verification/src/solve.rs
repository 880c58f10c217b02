//! Gaussian elimination with structural (leading-nonzero) pivoting.
//!
//! The solver works on an augmented constraint matrix of exact rationals.
//! Pivot selection is by the index of a row's first nonzero entry, not by
//! magnitude: row order encodes pivot assignment, and that order is part of
//! the algorithm's meaning. Every executable step is pinned to a spec-level
//! mirror of the same computation, so the whole reduction is a function of
//! its input.

use vstd::prelude::*;

use crate::rat::Rat;
use crate::SplineError;

verus! {

/// The matrix as a sequence of rows of rationals.
pub open spec fn mat_view(m: Vec<Vec<Rat>>) -> Seq<Seq<Rat>> {
    Seq::new(m@.len(), |i: int| m@[i]@)
}

/// Every entry of the row is well-formed.
pub open spec fn row_wf(r: Seq<Rat>) -> bool {
    forall|j: int| 0 <= j < r.len() ==> (#[trigger] r[j]).wf()
}

/// Every entry of the matrix is well-formed.
pub open spec fn mat_wf(m: Seq<Seq<Rat>>) -> bool {
    forall|i: int| 0 <= i < m.len() ==> row_wf(#[trigger] m[i])
}

/// Index of the first nonzero entry of `r` at or after `i`, if any.
pub open spec fn first_nonzero_from(r: Seq<Rat>, i: int) -> Option<int>
    decreases r.len() - i,
{
    if i < 0 || i >= r.len() {
        None
    } else if r[i].num != 0 {
        Some(i)
    } else {
        first_nonzero_from(r, i + 1)
    }
}

/// The pivot of a row: the column of its first nonzero entry. A row without
/// one has no pivot, which is fatal to the reduction.
pub fn pivot(m: &Vec<Vec<Rat>>, row: usize) -> (r: Result<usize, SplineError>)
    requires
        row < m@.len(),
    ensures
        r matches Ok(p) ==> first_nonzero_from(m@[row as int]@, 0) == Some(p as int),
        r matches Err(e) ==> e == SplineError::Solver
            && first_nonzero_from(m@[row as int]@, 0) is None,
{
    let rr: &Vec<Rat> = &m[row];
    let n = rr.len();
    let mut j: usize = 0;
    while j < n
        invariant
            0 <= j <= n,
            n == rr@.len(),
            rr@ == m@[row as int]@,
            first_nonzero_from(rr@, 0) == first_nonzero_from(rr@, j as int),
        decreases n - j,
    {
        if rr[j].num != 0 {
            return Ok(j);
        }
        j += 1;
    }
    Err(SplineError::Solver)
}

/// Spec mirror of row scaling: every entry multiplied by `s`, or an overflow
/// report if any product leaves the representable range.
pub open spec fn spec_scale_row(r: Seq<Rat>, s: Rat) -> Result<Seq<Rat>, SplineError> {
    if forall|j: int| 0 <= j < r.len() ==> (#[trigger] Rat::spec_mul(r[j], s)) is Some {
        Ok(Seq::new(r.len(), |j: int| Rat::spec_mul(r[j], s)->Some_0))
    } else {
        Err(SplineError::Overflow)
    }
}

/// Multiply every entry of a row by `s`.
fn scale_row(r: &Vec<Rat>, s: Rat) -> (out: Result<Vec<Rat>, SplineError>)
    requires
        row_wf(r@),
        s.wf(),
    ensures
        out matches Ok(v) ==> spec_scale_row(r@, s) == Ok::<Seq<Rat>, SplineError>(v@)
            && row_wf(v@),
        out matches Err(e) ==> spec_scale_row(r@, s) == Err::<Seq<Rat>, SplineError>(e),
{
    let n = r.len();
    let mut v: Vec<Rat> = Vec::new();
    let mut j: usize = 0;
    while j < n
        invariant
            0 <= j <= n,
            n == r@.len(),
            row_wf(r@),
            s.wf(),
            v@.len() == j,
            forall|k: int| 0 <= k < j ==> (#[trigger] Rat::spec_mul(r@[k], s)) is Some,
            forall|k: int| 0 <= k < j ==> v@[k] == Rat::spec_mul(r@[k], s)->Some_0,
            forall|k: int| 0 <= k < j ==> (#[trigger] v@[k]).wf(),
        decreases n - j,
    {
        assert(r@[j as int].wf());
        match r[j].mul(s) {
            Some(c) => {
                v.push(c);
            },
            None => {
                assert(Rat::spec_mul(r@[j as int], s) is None);
                return Err(SplineError::Overflow);
            },
        }
        j += 1;
    }
    assert(v@ =~= Seq::new(r@.len(), |k: int| Rat::spec_mul(r@[k], s)->Some_0));
    Ok(v)
}

/// Spec mirror of the in-place row update `dst[j] += src[j] * v`, walked from
/// entry `i` on. A source row too short for the walk is a solver failure
/// (an out-of-range read that would otherwise abort the run); a value out
/// of range is an overflow.
pub open spec fn spec_add_scaled(dst: Seq<Rat>, src: Seq<Rat>, v: Rat, i: int) -> Result<
    Seq<Rat>,
    SplineError,
>
    decreases dst.len() - i,
{
    if i < 0 || i >= dst.len() {
        Ok(dst)
    } else if i >= src.len() {
        Err(SplineError::Solver)
    } else {
        match Rat::spec_mul(src[i], v) {
            None => Err(SplineError::Overflow),
            Some(p) => match Rat::spec_add(dst[i], p) {
                None => Err(SplineError::Overflow),
                Some(c) => spec_add_scaled(dst.update(i, c), src, v, i + 1),
            },
        }
    }
}

/// `dst[j] + src[j] * v` for every entry of `dst`.
fn add_scaled(dst: &Vec<Rat>, src: &Vec<Rat>, v: Rat) -> (out: Result<Vec<Rat>, SplineError>)
    requires
        row_wf(dst@),
        row_wf(src@),
        v.wf(),
    ensures
        out matches Ok(w) ==> spec_add_scaled(dst@, src@, v, 0) == Ok::<Seq<Rat>, SplineError>(w@)
            && row_wf(w@) && w@.len() == dst@.len(),
        out matches Err(e) ==> spec_add_scaled(dst@, src@, v, 0) == Err::<Seq<Rat>, SplineError>(
            e,
        ),
{
    let n = dst.len();
    let mut w: Vec<Rat> = Vec::new();
    let mut j: usize = 0;
    proof {
        assert(w@ + dst@.subrange(0, n as int) =~= dst@);
    }
    while j < n
        invariant
            0 <= j <= n,
            n == dst@.len(),
            row_wf(dst@),
            row_wf(src@),
            v.wf(),
            w@.len() == j,
            forall|k: int| 0 <= k < j ==> (#[trigger] w@[k]).wf(),
            spec_add_scaled(dst@, src@, v, 0) == spec_add_scaled(
                w@ + dst@.subrange(j as int, n as int),
                src@,
                v,
                j as int,
            ),
        decreases n - j,
    {
        let ghost pre = w@ + dst@.subrange(j as int, n as int);
        assert(pre.len() == n);
        assert(pre[j as int] == dst@[j as int]);
        if j >= src.len() {
            assert(spec_add_scaled(pre, src@, v, j as int) == Err::<Seq<Rat>, SplineError>(
                SplineError::Solver,
            ));
            return Err(SplineError::Solver);
        }
        let p = match src[j].mul(v) {
            Some(p) => p,
            None => {
                assert(spec_add_scaled(pre, src@, v, j as int) == Err::<Seq<Rat>, SplineError>(
                    SplineError::Overflow,
                ));
                return Err(SplineError::Overflow);
            },
        };
        let c = match dst[j].add(p) {
            Some(c) => c,
            None => {
                assert(spec_add_scaled(pre, src@, v, j as int) == Err::<Seq<Rat>, SplineError>(
                    SplineError::Overflow,
                ));
                return Err(SplineError::Overflow);
            },
        };
        w.push(c);
        proof {
            let post = w@ + dst@.subrange(j + 1, n as int);
            assert(pre.update(j as int, c) =~= post);
        }
        j += 1;
    }
    proof {
        let fin = w@ + dst@.subrange(n as int, n as int);
        assert(fin =~= w@);
        assert(spec_add_scaled(w@, src@, v, n as int) == Ok::<Seq<Rat>, SplineError>(w@));
    }
    Ok(w)
}

/// A found first-nonzero index lies in range and points at a nonzero entry.
pub proof fn lemma_first_nonzero_bounds(r: Seq<Rat>, i: int)
    requires
        first_nonzero_from(r, i) is Some,
    ensures
        i <= first_nonzero_from(r, i)->Some_0 < r.len(),
        r[first_nonzero_from(r, i)->Some_0].num != 0,
    decreases r.len() - i,
{
    if i < 0 || i >= r.len() {
    } else if r[i].num != 0 {
    } else {
        lemma_first_nonzero_bounds(r, i + 1);
    }
}

/// An element-for-element copy of a row.
pub fn clone_row(r: &Vec<Rat>) -> (c: Vec<Rat>)
    ensures
        c@ == r@,
{
    let n = r.len();
    let mut c: Vec<Rat> = Vec::new();
    let mut j: usize = 0;
    while j < n
        invariant
            0 <= j <= n,
            n == r@.len(),
            c@ == r@.subrange(0, j as int),
        decreases n - j,
    {
        c.push(r[j]);
        proof {
            assert(c@ =~= r@.subrange(0, j + 1));
        }
        j += 1;
    }
    proof {
        assert(r@.subrange(0, n as int) =~= r@);
    }
    c
}

/// A row-for-row copy of a matrix.
pub fn clone_mat(m: &Vec<Vec<Rat>>) -> (c: Vec<Vec<Rat>>)
    ensures
        mat_view(c) == mat_view(*m),
{
    let n = m.len();
    let mut c: Vec<Vec<Rat>> = Vec::new();
    let mut i: usize = 0;
    while i < n
        invariant
            0 <= i <= n,
            n == m@.len(),
            c@.len() == i,
            forall|k: int| 0 <= k < i ==> (#[trigger] c@[k])@ == m@[k]@,
        decreases n - i,
    {
        let row = clone_row(&m[i]);
        c.push(row);
        i += 1;
    }
    proof {
        assert(mat_view(c) =~= mat_view(*m));
    }
    c
}

/// Spec mirror of one elimination sweep over the rows, clearing column
/// `pivot_col` in every row but the pivot row `c`, walked from row `r`.
pub open spec fn spec_elim_rows(m: Seq<Seq<Rat>>, pivot_col: int, c: int, r: int) -> Result<
    Seq<Seq<Rat>>,
    SplineError,
>
    decreases m.len() - r,
{
    if r < 0 || r >= m.len() {
        Ok(m)
    } else if r == c {
        spec_elim_rows(m, pivot_col, c, r + 1)
    } else if pivot_col < 0 || pivot_col >= m[r].len() {
        Err(SplineError::Solver)
    } else {
        match spec_add_scaled(m[r], m[c], Rat::spec_neg(m[r][pivot_col]), 0) {
            Ok(row) => spec_elim_rows(m.update(r, row), pivot_col, c, r + 1),
            Err(e) => Err(e),
        }
    }
}

/// Spec mirror of one pass of the outer elimination loop: find the pivot of
/// row `c`, scale that row so the pivot entry becomes one, and clear the
/// pivot column everywhere else.
pub open spec fn spec_elim_col(m: Seq<Seq<Rat>>, c: int) -> Result<Seq<Seq<Rat>>, SplineError> {
    if c < 0 || c >= m.len() {
        Err(SplineError::Solver)
    } else {
        match first_nonzero_from(m[c], 0) {
            None => Err(SplineError::Solver),
            Some(p) => match spec_scale_row(m[c], Rat::spec_recip(m[c][p])) {
                Err(e) => Err(e),
                Ok(scaled) => spec_elim_rows(m.update(c, scaled), p, c, 0),
            },
        }
    }
}

/// Spec mirror of the column loop: eliminate for rows `c, c+1, ..., dim-1`.
pub open spec fn spec_reduce_cols(m: Seq<Seq<Rat>>, c: int, dim: int) -> Result<
    Seq<Seq<Rat>>,
    SplineError,
>
    decreases dim - c,
{
    if c < 0 || c >= dim {
        Ok(m)
    } else {
        match spec_elim_col(m, c) {
            Ok(m2) => spec_reduce_cols(m2, c + 1, dim),
            Err(e) => Err(e),
        }
    }
}

/// One elimination pass for row `c`.
#[verifier::loop_isolation(false)]
fn elim_col(m: Vec<Vec<Rat>>, c: usize) -> (out: Result<Vec<Vec<Rat>>, SplineError>)
    requires
        mat_wf(mat_view(m)),
    ensures
        out matches Ok(m2) ==> spec_elim_col(mat_view(m), c as int) == Ok::<
            Seq<Seq<Rat>>,
            SplineError,
        >(mat_view(m2)) && mat_wf(mat_view(m2)) && mat_view(m2).len() == mat_view(m).len(),
        out matches Err(e) ==> spec_elim_col(mat_view(m), c as int) == Err::<
            Seq<Seq<Rat>>,
            SplineError,
        >(e),
{
    let ghost m0 = mat_view(m);
    let mut m = m;
    let nrows = m.len();
    if c >= nrows {
        return Err(SplineError::Solver);
    }
    let p = match pivot(&m, c) {
        Ok(p) => p,
        Err(e) => {
            return Err(e);
        },
    };
    proof {
        assert(m0[c as int] == m@[c as int]@);
        lemma_first_nonzero_bounds(m0[c as int], 0);
    }
    let s: Rat = m[c][p];
    assert(s.wf() && s.num != 0) by {
        assert(row_wf(m0[c as int]));
    }
    let sc = match scale_row(&m[c], s.recip()) {
        Ok(v) => v,
        Err(e) => {
            return Err(e);
        },
    };
    m[c] = sc;
    let ghost m1 = m0.update(c as int, sc@);
    proof {
        assert(mat_view(m) =~= m1);
        assert(mat_wf(m1));
    }
    let mut r: usize = 0;
    while r < nrows
        invariant
            0 <= r <= nrows,
            nrows == m@.len(),
            c < nrows,
            mat_wf(mat_view(m)),
            spec_elim_rows(m1, p as int, c as int, 0) == spec_elim_rows(
                mat_view(m),
                p as int,
                c as int,
                r as int,
            ),
            m@[c as int]@ == sc@,
        decreases nrows - r,
    {
        if r != c {
            let ghost cur = mat_view(m);
            if p >= m[r].len() {
                return Err(SplineError::Solver);
            }
            let av: Rat = m[r][p];
            assert(av.wf()) by {
                assert(row_wf(cur[r as int]));
            }
            let nrow = match add_scaled(&m[r], &m[c], av.neg()) {
                Ok(w) => w,
                Err(e) => {
                    return Err(e);
                },
            };
            m[r] = nrow;
            proof {
                assert(mat_view(m) =~= cur.update(r as int, nrow@));
            }
        }
        r += 1;
    }
    proof {
        assert(spec_elim_rows(mat_view(m), p as int, c as int, nrows as int) == Ok::<
            Seq<Seq<Rat>>,
            SplineError,
        >(mat_view(m)));
    }
    Ok(m)
}

/// Every row of the matrix has at least one entry.
pub open spec fn rows_nonempty(m: Seq<Seq<Rat>>) -> bool {
    forall|i: int| 0 <= i < m.len() ==> (#[trigger] m[i]).len() > 0
}

/// A successful in-place row update keeps the row's width.
pub proof fn lemma_add_scaled_len(dst: Seq<Rat>, src: Seq<Rat>, v: Rat, i: int)
    requires
        spec_add_scaled(dst, src, v, i) is Ok,
    ensures
        spec_add_scaled(dst, src, v, i)->Ok_0.len() == dst.len(),
    decreases dst.len() - i,
{
    if i < 0 || i >= dst.len() {
    } else if i >= src.len() {
    } else {
        match Rat::spec_mul(src[i], v) {
            None => {},
            Some(p) => match Rat::spec_add(dst[i], p) {
                None => {},
                Some(c) => {
                    lemma_add_scaled_len(dst.update(i, c), src, v, i + 1);
                },
            },
        }
    }
}

/// A successful elimination sweep keeps the row count and leaves no row
/// empty.
pub proof fn lemma_elim_rows_shape(m: Seq<Seq<Rat>>, p: int, c: int, r: int)
    requires
        spec_elim_rows(m, p, c, r) is Ok,
        rows_nonempty(m),
    ensures
        spec_elim_rows(m, p, c, r)->Ok_0.len() == m.len(),
        rows_nonempty(spec_elim_rows(m, p, c, r)->Ok_0),
    decreases m.len() - r,
{
    if r < 0 || r >= m.len() {
    } else if r == c {
        lemma_elim_rows_shape(m, p, c, r + 1);
    } else if p < 0 || p >= m[r].len() {
    } else {
        match spec_add_scaled(m[r], m[c], Rat::spec_neg(m[r][p]), 0) {
            Ok(row) => {
                lemma_add_scaled_len(m[r], m[c], Rat::spec_neg(m[r][p]), 0);
                assert(rows_nonempty(m.update(r, row)));
                lemma_elim_rows_shape(m.update(r, row), p, c, r + 1);
            },
            Err(_) => {},
        }
    }
}

/// A successful elimination pass keeps the row count and leaves no row
/// empty.
pub proof fn lemma_elim_col_shape(m: Seq<Seq<Rat>>, c: int)
    requires
        spec_elim_col(m, c) is Ok,
        rows_nonempty(m),
    ensures
        spec_elim_col(m, c)->Ok_0.len() == m.len(),
        rows_nonempty(spec_elim_col(m, c)->Ok_0),
{
    let p = first_nonzero_from(m[c], 0)->Some_0;
    let scaled = spec_scale_row(m[c], Rat::spec_recip(m[c][p]))->Ok_0;
    assert(scaled.len() == m[c].len());
    assert(rows_nonempty(m.update(c, scaled)));
    lemma_elim_rows_shape(m.update(c, scaled), p, c, 0);
}

/// The whole column loop keeps the row count and leaves no row empty.
pub proof fn lemma_reduce_cols_shape(m: Seq<Seq<Rat>>, c: int, dim: int)
    requires
        spec_reduce_cols(m, c, dim) is Ok,
        rows_nonempty(m),
    ensures
        spec_reduce_cols(m, c, dim)->Ok_0.len() == m.len(),
        rows_nonempty(spec_reduce_cols(m, c, dim)->Ok_0),
    decreases dim - c,
{
    if c < 0 || c >= dim {
    } else {
        match spec_elim_col(m, c) {
            Ok(m2) => {
                lemma_elim_col_shape(m, c);
                lemma_reduce_cols_shape(m2, c + 1, dim);
            },
            Err(_) => {},
        }
    }
}

/// The reordering pass permutes rows, keeping the row count and leaving no
/// row empty.
pub proof fn lemma_reorder_shape(m: Seq<Seq<Rat>>, dim: int, c: int, row_pos: int)
    requires
        spec_reorder(m, dim, c, row_pos) is Ok,
        rows_nonempty(m),
    ensures
        spec_reorder(m, dim, c, row_pos)->Ok_0.len() == m.len(),
        rows_nonempty(spec_reorder(m, dim, c, row_pos)->Ok_0),
    decreases dim - c,
{
    if c < 0 || c >= dim {
    } else {
        match spec_row_of_col(m, c, 0, None) {
            Err(_) => {},
            Ok(None) => {
                lemma_reorder_shape(m, dim, c + 1, row_pos);
            },
            Ok(Some(v)) => {
                if 0 <= row_pos < m.len() {
                    lemma_row_of_col_bounds(m, c, 0, None);
                    assert(rows_nonempty(swap_rows(m, v, row_pos)));
                    lemma_reorder_shape(swap_rows(m, v, row_pos), dim, c + 1, row_pos + 1);
                }
            },
        }
    }
}

/// With no empty row, the read-off takes exactly one coefficient per row.
pub proof fn lemma_read_off_len(m: Seq<Seq<Rat>>)
    requires
        rows_nonempty(m),
    ensures
        spec_read_off(m).len() == m.len(),
    decreases m.len(),
{
    if m.len() == 0 {
    } else {
        assert(m.last().len() > 0);
        assert(rows_nonempty(m.drop_last())) by {
            assert forall|i: int| 0 <= i < m.drop_last().len() implies (#[trigger] m.drop_last()[
                i
            ]).len() > 0 by {
                assert(m.drop_last()[i] == m[i]);
            }
        }
        lemma_read_off_len(m.drop_last());
    }
}

/// The solve returns exactly one coefficient per assembled row: with every
/// input row nonempty, the coefficient vector is as long as the position
/// block, plus the velocity block on the velocity path, and so is the
/// returned pre-reduction snapshot.
pub proof fn lemma_row_reduce_output_length(
    pos: Seq<Seq<Rat>>,
    vel: Seq<Seq<Rat>>,
    dir: Seq<Seq<Rat>>,
    velocity: bool,
)
    requires
        spec_row_reduce(pos, vel, dir, velocity) is Ok,
        rows_nonempty(pos),
        rows_nonempty(vel),
    ensures
        spec_row_reduce(pos, vel, dir, velocity)->Ok_0.1.len() == pos.len() + (if velocity {
            vel.len() as int
        } else {
            0
        }),
        spec_row_reduce(pos, vel, dir, velocity)->Ok_0.0.len() == pos.len() + (if velocity {
            vel.len() as int
        } else {
            0
        }),
{
    let aug = spec_augment(pos, vel, dir, velocity)->Ok_0;
    let pos2 = Seq::new(
        pos.len(),
        |i: int| if i < dir.len() { pos[i].push(dir[i][1]) } else { pos[i] },
    );
    assert(rows_nonempty(pos2)) by {
        assert forall|i: int| 0 <= i < pos2.len() implies (#[trigger] pos2[i]).len() > 0 by {
            assert(pos[i].len() > 0);
        }
    }
    if velocity {
        let k = spec_vel_aug_len(vel, dir, 0);
        let vel2 = Seq::new(
            vel.len(),
            |i: int| if i < k { vel[i].push(dir[i][2]) } else { vel[i] },
        );
        assert(rows_nonempty(vel2)) by {
            assert forall|i: int| 0 <= i < vel2.len() implies (#[trigger] vel2[i]).len() > 0 by {
                assert(vel[i].len() > 0);
            }
        }
        assert(aug == pos2 + vel2);
        assert(rows_nonempty(aug)) by {
            assert forall|i: int| 0 <= i < aug.len() implies (#[trigger] aug[i]).len() > 0 by {
                if i < pos2.len() {
                    assert(aug[i] == pos2[i]);
                } else {
                    assert(aug[i] == vel2[i - pos2.len()]);
                }
            }
        }
    } else {
        assert(aug == pos2);
    }
    let dim = aug[0].len() - 1;
    lemma_reduce_cols_shape(aug, 0, dim);
    let m1 = spec_reduce_cols(aug, 0, dim)->Ok_0;
    lemma_reorder_shape(m1, dim, 0, 0);
    let m2 = spec_reorder(m1, dim, 0, 0)->Ok_0;
    lemma_read_off_len(m2);
}

/// A row that the elimination reaches without any nonzero entry aborts the
/// whole reduction with a solver failure: no coefficient vector is ever
/// read off such a system silently.
pub proof fn lemma_no_pivot_aborts(m: Seq<Seq<Rat>>, c: int, dim: int)
    requires
        0 <= c < dim,
        0 <= c < m.len(),
        first_nonzero_from(m[c], 0) is None,
    ensures
        spec_reduce_cols(m, c, dim) == Err::<Seq<Seq<Rat>>, SplineError>(SplineError::Solver),
{
    assert(spec_elim_col(m, c) == Err::<Seq<Seq<Rat>>, SplineError>(SplineError::Solver));
}

/// View of an optional index as a spec value.
pub open spec fn opt_view(o: Option<usize>) -> Option<int> {
    match o {
        Some(v) => Some(v as int),
        None => None,
    }
}

/// Spec mirror of the pivot-to-row scan: walk every row, fail on a pivotless
/// row, and remember the first row whose pivot is `col`.
pub open spec fn spec_row_of_col(m: Seq<Seq<Rat>>, col: int, i: int, acc: Option<int>) -> Result<
    Option<int>,
    SplineError,
>
    decreases m.len() - i,
{
    if i < 0 || i >= m.len() {
        Ok(acc)
    } else {
        match first_nonzero_from(m[i], 0) {
            None => Err(SplineError::Solver),
            Some(p) => if p == col && acc is None {
                spec_row_of_col(m, col, i + 1, Some(i))
            } else {
                spec_row_of_col(m, col, i + 1, acc)
            },
        }
    }
}

/// A row index reported by the scan lies in range.
pub proof fn lemma_row_of_col_bounds(m: Seq<Seq<Rat>>, col: int, i: int, acc: Option<int>)
    requires
        spec_row_of_col(m, col, i, acc) matches Ok(o) && o is Some,
        acc matches Some(a) ==> 0 <= a < m.len(),
    ensures
        0 <= spec_row_of_col(m, col, i, acc)->Ok_0->Some_0 < m.len(),
    decreases m.len() - i,
{
    if i < 0 || i >= m.len() {
    } else {
        match first_nonzero_from(m[i], 0) {
            None => {},
            Some(p) => {
                if p == col && acc is None {
                    lemma_row_of_col_bounds(m, col, i + 1, Some(i));
                } else {
                    lemma_row_of_col_bounds(m, col, i + 1, acc);
                }
            },
        }
    }
}

/// The first row, in row order, whose pivot sits in column `col`, or `None`
/// when no row's pivot does.
#[verifier::loop_isolation(false)]
pub fn row_of_col(m: &Vec<Vec<Rat>>, col: usize) -> (out: Result<Option<usize>, SplineError>)
    ensures
        out matches Ok(o) ==> spec_row_of_col(mat_view(*m), col as int, 0, None) == Ok::<
            Option<int>,
            SplineError,
        >(opt_view(o)),
        out matches Err(e) ==> spec_row_of_col(mat_view(*m), col as int, 0, None) == Err::<
            Option<int>,
            SplineError,
        >(e),
{
    let n = m.len();
    let mut acc: Option<usize> = None;
    let mut i: usize = 0;
    while i < n
        invariant
            0 <= i <= n,
            spec_row_of_col(mat_view(*m), col as int, 0, None) == spec_row_of_col(
                mat_view(*m),
                col as int,
                i as int,
                opt_view(acc),
            ),
        decreases n - i,
    {
        match pivot(m, i) {
            Err(e) => {
                return Err(e);
            },
            Ok(p) => {
                if p == col && acc.is_none() {
                    acc = Some(i);
                }
            },
        }
        i += 1;
    }
    Ok(acc)
}

/// Rows `a` and `b` exchanged.
pub open spec fn swap_rows(m: Seq<Seq<Rat>>, a: int, b: int) -> Seq<Seq<Rat>> {
    m.update(a, m[b]).update(b, m[a])
}

/// Spec mirror of the reordering pass: for each column in turn, move the
/// first row whose pivot sits there up to the next open position.
pub open spec fn spec_reorder(m: Seq<Seq<Rat>>, dim: int, c: int, row_pos: int) -> Result<
    Seq<Seq<Rat>>,
    SplineError,
>
    decreases dim - c,
{
    if c < 0 || c >= dim {
        Ok(m)
    } else {
        match spec_row_of_col(m, c, 0, None) {
            Err(e) => Err(e),
            Ok(None) => spec_reorder(m, dim, c + 1, row_pos),
            Ok(Some(v)) => if 0 <= row_pos < m.len() {
                spec_reorder(swap_rows(m, v, row_pos), dim, c + 1, row_pos + 1)
            } else {
                Err(SplineError::Solver)
            },
        }
    }
}

/// The last entry of every nonempty row, in row order: the solved
/// coefficients once the matrix is reduced and reordered.
pub open spec fn spec_read_off(m: Seq<Seq<Rat>>) -> Seq<Rat>
    decreases m.len(),
{
    if m.len() == 0 {
        Seq::empty()
    } else if m.last().len() == 0 {
        spec_read_off(m.drop_last())
    } else {
        spec_read_off(m.drop_last()).push(m.last().last())
    }
}

/// Index at which the velocity-augmentation walk stops: the first row index
/// that runs past the velocity rows, past the data rows, or meets a data row
/// without a third component.
pub open spec fn spec_vel_aug_len(vel: Seq<Seq<Rat>>, dir: Seq<Seq<Rat>>, i: int) -> int
    decreases vel.len() - i,
{
    if i < 0 || i >= vel.len() || i >= dir.len() || dir[i].len() < 3 {
        i
    } else {
        spec_vel_aug_len(vel, dir, i + 1)
    }
}

/// Spec mirror of augmentation: append to each position row (up to the data
/// row count) the second component of its data row, and, on the velocity
/// path, to a prefix of velocity rows the third component, then stack the
/// velocity rows below. A data row without a second component where one is
/// read is a fatal out-of-range access, reported as a solver failure.
pub open spec fn spec_augment(
    pos: Seq<Seq<Rat>>,
    vel: Seq<Seq<Rat>>,
    dir: Seq<Seq<Rat>>,
    velocity: bool,
) -> Result<Seq<Seq<Rat>>, SplineError> {
    if exists|i: int| 0 <= i < pos.len() && i < dir.len() && (#[trigger] dir[i]).len() < 2 {
        Err(SplineError::Solver)
    } else {
        let pos2 = Seq::new(
            pos.len(),
            |i: int| if i < dir.len() { pos[i].push(dir[i][1]) } else { pos[i] },
        );
        if velocity {
            let k = spec_vel_aug_len(vel, dir, 0);
            let vel2 = Seq::new(
                vel.len(),
                |i: int| if i < k { vel[i].push(dir[i][2]) } else { vel[i] },
            );
            Ok(pos2 + vel2)
        } else {
            Ok(pos2)
        }
    }
}

/// Spec mirror of the whole solve: augment, eliminate column by column,
/// reorder rows by pivot column, and read the coefficients off the
/// right-hand-side column. The first component of the result is the
/// augmented, unreduced matrix.
pub open spec fn spec_row_reduce(
    pos: Seq<Seq<Rat>>,
    vel: Seq<Seq<Rat>>,
    dir: Seq<Seq<Rat>>,
    velocity: bool,
) -> Result<(Seq<Seq<Rat>>, Seq<Rat>), SplineError> {
    match spec_augment(pos, vel, dir, velocity) {
        Err(e) => Err(e),
        Ok(aug) => if aug.len() == 0 || aug[0].len() == 0 {
            Err(SplineError::Solver)
        } else {
            let dim = aug[0].len() - 1;
            match spec_reduce_cols(aug, 0, dim) {
                Err(e) => Err(e),
                Ok(m1) => match spec_reorder(m1, dim, 0, 0) {
                    Err(e) => Err(e),
                    Ok(m2) => Ok((aug, spec_read_off(m2))),
                },
            }
        },
    }
}

/// Solve the assembled constraint system against one axis's data rows.
///
/// Returns the augmented pre-reduction matrix alongside the coefficient
/// vector, exactly as `spec_row_reduce` describes; every failure of the
/// reduction is reported as a value.
#[verifier::loop_isolation(false)]
#[verifier::rlimit(100)]
pub fn row_reduce(
    pos: Vec<Vec<Rat>>,
    vel: Vec<Vec<Rat>>,
    direction: &Vec<Vec<Rat>>,
    velocity: bool,
) -> (out: Result<(Vec<Vec<Rat>>, Vec<Rat>), SplineError>)
    requires
        mat_wf(mat_view(pos)),
        mat_wf(mat_view(vel)),
        mat_wf(mat_view(*direction)),
    ensures
        out matches Ok(gc) ==> spec_row_reduce(
            mat_view(pos),
            mat_view(vel),
            mat_view(*direction),
            velocity,
        ) == Ok::<(Seq<Seq<Rat>>, Seq<Rat>), SplineError>((mat_view(gc.0), gc.1@)) && mat_wf(
            mat_view(gc.0),
        ) && row_wf(gc.1@),
        out matches Err(e) ==> spec_row_reduce(
            mat_view(pos),
            mat_view(vel),
            mat_view(*direction),
            velocity,
        ) == Err::<(Seq<Seq<Rat>>, Seq<Rat>), SplineError>(e),
{
    let ghost pos0 = mat_view(pos);
    let ghost vel0 = mat_view(vel);
    let ghost dir0 = mat_view(*direction);
    let mut pos = pos;
    let mut vel = vel;
    let dlen = direction.len();
    let plen = pos.len();
    let mut i: usize = 0;
    while i < plen && i < dlen
        invariant
            0 <= i <= plen,
            i <= dlen,
            pos@.len() == plen,
            forall|k: int| 0 <= k < i ==> (#[trigger] dir0[k]).len() >= 2,
            forall|k: int| 0 <= k < i ==> (#[trigger] pos@[k])@ == pos0[k].push(dir0[k][1]),
            forall|k: int| i <= k < plen ==> (#[trigger] pos@[k])@ == pos0[k],
            mat_wf(mat_view(pos)),
        decreases plen - i,
    {
        if direction[i].len() < 2 {
            proof {
                assert((i as int) < pos0.len() && (i as int) < dir0.len() && dir0[
                    i as int
                ].len() < 2);
            }
            return Err(SplineError::Solver);
        }
        let mut row = clone_row(&pos[i]);
        row.push(direction[i][1]);
        pos[i] = row;
        proof {
            assert(row_wf(dir0[i as int]));
            assert(row_wf(row@));
        }
        i += 1;
    }
    proof {
        assert forall|k: int| 0 <= k < pos0.len() && k < dir0.len() implies (#[trigger] dir0[
            k
        ]).len() >= 2 by {
            assert(k < i);
            assert(dir0[k].len() >= 2);
        }
    }
    let ghost pos2 = Seq::new(
        pos0.len(),
        |k: int| if k < dir0.len() { pos0[k].push(dir0[k][1]) } else { pos0[k] },
    );
    proof {
        assert(mat_view(pos) =~= pos2);
    }
    if velocity {
        let vlen = vel.len();
        let mut j: usize = 0;
        while j < vlen && j < dlen && direction[j].len() >= 3
            invariant
                0 <= j <= vlen,
                j <= dlen,
                vel@.len() == vlen,
                spec_vel_aug_len(vel0, dir0, 0) == spec_vel_aug_len(vel0, dir0, j as int),
                forall|k: int| 0 <= k < j ==> (#[trigger] dir0[k]).len() >= 3,
                forall|k: int| 0 <= k < j ==> (#[trigger] vel@[k])@ == vel0[k].push(dir0[k][2]),
                forall|k: int| j <= k < vlen ==> (#[trigger] vel@[k])@ == vel0[k],
                mat_wf(mat_view(vel)),
            decreases vlen - j,
        {
            let mut row = clone_row(&vel[j]);
            row.push(direction[j][2]);
            proof {
                assert(row_wf(dir0[j as int]));
                assert(row_wf(row@));
            }
            vel[j] = row;
            proof {
                assert(vel@[j as int]@ == vel0[j as int].push(dir0[j as int][2]));
            }
            j += 1;
        }
        let ghost k = spec_vel_aug_len(vel0, dir0, 0);
        proof {
            assert(k == j as int);
        }
        let ghost vel2 = Seq::new(
            vel0.len(),
            |t: int| if t < k { vel0[t].push(dir0[t][2]) } else { vel0[t] },
        );
        proof {
            assert(mat_view(vel) =~= vel2);
        }
        pos.append(&mut vel);
        proof {
            assert(mat_view(pos) =~= pos2 + vel2);
        }
    }
    let ghost augv = mat_view(pos);
    proof {
        assert(spec_augment(pos0, vel0, dir0, velocity) == Ok::<Seq<Seq<Rat>>, SplineError>(augv));
        assert(mat_wf(augv));
    }
    let mut m = pos;
    let nrows = m.len();
    if nrows == 0 {
        return Err(SplineError::Solver);
    }
    if m[0].len() == 0 {
        return Err(SplineError::Solver);
    }
    let dim = m[0].len() - 1;
    let generated = clone_mat(&m);
    let mut c: usize = 0;
    while c < dim
        invariant
            0 <= c <= dim,
            mat_wf(mat_view(m)),
            mat_view(m).len() == nrows,
            spec_reduce_cols(augv, 0, dim as int) == spec_reduce_cols(
                mat_view(m),
                c as int,
                dim as int,
            ),
        decreases dim - c,
    {
        let ghost cur = mat_view(m);
        m = match elim_col(m, c) {
            Ok(m2) => m2,
            Err(e) => {
                return Err(e);
            },
        };
        c += 1;
    }
    let ghost m1v = mat_view(m);
    proof {
        assert(spec_reduce_cols(augv, 0, dim as int) == Ok::<Seq<Seq<Rat>>, SplineError>(m1v));
    }
    let mut c2: usize = 0;
    let mut row_pos: usize = 0;
    while c2 < dim
        invariant
            0 <= c2 <= dim,
            mat_wf(mat_view(m)),
            mat_view(m).len() == nrows,
            spec_reorder(m1v, dim as int, 0, 0) == spec_reorder(
                mat_view(m),
                dim as int,
                c2 as int,
                row_pos as int,
            ),
        decreases dim - c2,
    {
        let ghost cur = mat_view(m);
        match row_of_col(&m, c2) {
            Err(e) => {
                return Err(e);
            },
            Ok(None) => {
                c2 += 1;
            },
            Ok(Some(v)) => {
                proof {
                    lemma_row_of_col_bounds(cur, c2 as int, 0, None);
                }
                if row_pos >= nrows {
                    return Err(SplineError::Solver);
                }
                let ra = clone_row(&m[v]);
                let rb = clone_row(&m[row_pos]);
                m[v] = rb;
                m[row_pos] = ra;
                proof {
                    assert(mat_view(m) =~= swap_rows(cur, v as int, row_pos as int));
                }
                row_pos += 1;
                c2 += 1;
            },
        }
    }
    let ghost m2v = mat_view(m);
    proof {
        assert(spec_reorder(m1v, dim as int, 0, 0) == Ok::<Seq<Seq<Rat>>, SplineError>(m2v));
    }
    let mut res: Vec<Rat> = Vec::new();
    let mut t: usize = 0;
    while t < nrows
        invariant
            0 <= t <= nrows,
            mat_view(m) == m2v,
            mat_view(m).len() == nrows,
            mat_wf(m2v),
            res@ == spec_read_off(m2v.subrange(0, t as int)),
            row_wf(res@),
        decreases nrows - t,
    {
        let rlen = m[t].len();
        if rlen > 0 {
            let x: Rat = m[t][rlen - 1];
            proof {
                assert(row_wf(m2v[t as int]));
            }
            res.push(x);
        }
        proof {
            assert(m2v.subrange(0, t + 1).drop_last() =~= m2v.subrange(0, t as int));
            assert(m2v.subrange(0, t + 1).last() == m2v[t as int]);
        }
        t += 1;
    }
    proof {
        assert(m2v.subrange(0, nrows as int) =~= m2v);
    }
    Ok((generated, res))
}

} // verus!
