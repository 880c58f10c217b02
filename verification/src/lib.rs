//! Spline equation generation: turns a small tabular text format into the
//! coefficient vectors of interpolating polynomials, by assembling a
//! constraint matrix and reducing it with Gaussian elimination.
//!
//! All scalar work is done in exact rational arithmetic (`rat::Rat`), so every
//! stage of the pipeline carries a contract that pins its result down to a
//! mathematical description of the same computation. A host that wants
//! floating-point output converts the rationals at the boundary.

pub mod csv;
pub mod rat;
pub mod solve;

use vstd::prelude::*;

use crate::rat::{in_num_range, Rat};

verus! {

/// The ways a run can fail. Every failure is surfaced as a value; no verified
/// function of this crate panics.
#[derive(Clone, Copy, Debug, PartialEq, Eq, Structural)]
pub enum SplineError {
    /// A numeric token could not be read, or a coordinate cell did not hold
    /// exactly two numbers.
    Parse,
    /// The linear system could not be reduced: a row without a nonzero entry,
    /// or a row too short for the elimination step that reached it.
    Solver,
    /// An exact rational value left the range this crate can represent.
    /// This is a machine limit, not a property of the input format.
    Overflow,
}

/// View of a list of control points as mathematical integers.
pub open spec fn ints_view(v: Vec<i64>) -> Seq<int> {
    Seq::new(v@.len(), |i: int| v@[i] as int)
}

/// Spec mirror of the control-point scan. The running maximum row length
/// `max_len` grows as the scan walks the rows; a strictly longer row found
/// along the way discards the control points accumulated so far and restarts
/// accumulation at the new maximum; rows shorter than the running maximum are
/// skipped as incomplete; from a qualifying row the leading value is
/// truncated, and kept when positive (index zero is already covered by the
/// always-true first constraint).
pub open spec fn spec_uv(rows: Seq<Seq<Rat>>, i: int, max_len: int, uv: Seq<int>) -> Seq<int>
    decreases rows.len() - i,
{
    if i < 0 || i >= rows.len() {
        uv
    } else {
        let rl = rows[i].len() as int;
        let ml = if rl > max_len {
            rl
        } else {
            max_len
        };
        let acc = if rl > max_len {
            Seq::<int>::empty()
        } else {
            uv
        };
        if rl < ml || rl == 0 {
            spec_uv(rows, i + 1, ml, acc)
        } else {
            let v = Rat::spec_trunc(rows[i][0]);
            if v <= 0 {
                spec_uv(rows, i + 1, ml, acc)
            } else {
                spec_uv(rows, i + 1, ml, acc.push(v))
            }
        }
    }
}

/// The ordered control points of one axis table.
#[verifier::loop_isolation(false)]
pub fn control_points(rows: &Vec<Vec<Rat>>) -> (out: Vec<i64>)
    requires
        crate::solve::mat_wf(crate::solve::mat_view(*rows)),
    ensures
        ints_view(out) == spec_uv(crate::solve::mat_view(*rows), 0, 0, Seq::empty()),
        out@.len() <= rows@.len(),
        forall|k: int| 0 <= k < out@.len() ==> 0 < #[trigger] out@[k],
{
    let ghost rv = crate::solve::mat_view(*rows);
    let n = rows.len();
    let mut uv: Vec<i64> = Vec::new();
    let mut max_len: usize = 0;
    let mut i: usize = 0;
    proof {
        assert(ints_view(uv) =~= Seq::<int>::empty());
    }
    while i < n
        invariant
            0 <= i <= n,
            uv@.len() <= i,
            forall|k: int| 0 <= k < uv@.len() ==> 0 < #[trigger] uv@[k],
            spec_uv(rv, 0, 0, Seq::empty()) == spec_uv(rv, i as int, max_len as int, ints_view(uv)),
        decreases n - i,
    {
        let rl = rows[i].len();
        if rl > max_len {
            uv.clear();
            max_len = rl;
            proof {
                assert(ints_view(uv) =~= Seq::<int>::empty());
            }
        }
        if rl >= max_len && rl > 0 {
            proof {
                assert(crate::solve::row_wf(rv[i as int]));
            }
            let v: i64 = rows[i][0].trunc();
            if v > 0 {
                let ghost before = ints_view(uv);
                uv.push(v);
                proof {
                    assert(ints_view(uv) =~= before.push(v as int));
                }
            }
        }
        i += 1;
    }
    uv
}

/// `b` to the `e`th power, as long as every partial product stays in range.
pub open spec fn spec_ipow(b: int, e: nat) -> Option<int>
    decreases e,
{
    if e == 0 {
        Some(1)
    } else {
        match spec_ipow(b, (e - 1) as nat) {
            None => None,
            Some(p) => if in_num_range(p * b) {
                Some(p * b)
            } else {
                None
            },
        }
    }
}

/// Once a power leaves the range, every higher power does too.
proof fn lemma_ipow_none(b: int, k: nat, e: nat)
    requires
        k <= e,
        spec_ipow(b, k) is None,
    ensures
        spec_ipow(b, e) is None,
    decreases e,
{
    if e == k {
    } else {
        lemma_ipow_none(b, k, (e - 1) as nat);
    }
}

/// Integer power with overflow reported.
#[verifier::loop_isolation(false)]
fn ipow(b: i64, e: usize) -> (out: Option<i64>)
    requires
        in_num_range(b as int),
    ensures
        out matches Some(p) ==> spec_ipow(b as int, e as nat) == Some(p as int) && in_num_range(
            p as int,
        ),
        out is None ==> spec_ipow(b as int, e as nat) is None,
{
    let mut p: i64 = 1;
    let mut j: usize = 0;
    while j < e
        invariant
            0 <= j <= e,
            spec_ipow(b as int, j as nat) == Some(p as int),
            in_num_range(p as int),
        decreases e - j,
    {
        proof {
            assert((p as int) * (b as int) <= 0x3fff_ffff_ffff_ffff_0000_0000_0000_0001 && (
            p as int) * (b as int) >= -0x3fff_ffff_ffff_ffff_0000_0000_0000_0001) by (
            nonlinear_arith)
                requires
                    -0x7fff_ffff_ffff_ffff <= p as int <= 0x7fff_ffff_ffff_ffff,
                    -0x7fff_ffff_ffff_ffff <= b as int <= 0x7fff_ffff_ffff_ffff,
            ;
        }
        let w: i128 = (p as i128) * (b as i128);
        if w < -0x7fff_ffff_ffff_ffffi128 || w > 0x7fff_ffff_ffff_ffffi128 {
            proof {
                assert(spec_ipow(b as int, (j + 1) as nat) is None);
                lemma_ipow_none(b as int, (j + 1) as nat, e as nat);
            }
            return None;
        }
        p = w as i64;
        j += 1;
    }
    Some(p)
}

/// Entry `c` of a position constraint row for control point `u`: `u^c`.
pub open spec fn spec_pos_entry(u: int, c: nat) -> Option<Rat> {
    match spec_ipow(u, c) {
        None => None,
        Some(p) => Some(Rat { num: p as i64, den: 1 }),
    }
}

/// Entry `c` of a velocity constraint row for control point `u`:
/// `c * u^(c-1)`, with the constant term's derivative zero.
pub open spec fn spec_vel_entry(u: int, c: nat) -> Option<Rat> {
    if c == 0 {
        Some(Rat { num: 0, den: 1 })
    } else {
        match spec_ipow(u, (c - 1) as nat) {
            None => None,
            Some(p) => if in_num_range(c * p) {
                Some(Rat { num: (c * p) as i64, den: 1 })
            } else {
                None
            },
        }
    }
}

/// The position row of control point `u`, of width `dim`.
pub open spec fn spec_pos_row(u: int, dim: nat) -> Option<Seq<Rat>> {
    if forall|c: int| 0 <= c < dim ==> (#[trigger] spec_pos_entry(u, c as nat)) is Some {
        Some(Seq::new(dim, |c: int| spec_pos_entry(u, c as nat)->Some_0))
    } else {
        None
    }
}

/// The velocity row of control point `u`, of width `dim`.
pub open spec fn spec_vel_row(u: int, dim: nat) -> Option<Seq<Rat>> {
    if forall|c: int| 0 <= c < dim ==> (#[trigger] spec_vel_entry(u, c as nat)) is Some {
        Some(Seq::new(dim, |c: int| spec_vel_entry(u, c as nat)->Some_0))
    } else {
        None
    }
}

/// The always-true position constraint at parameter zero: `1, 0, ..., 0`.
pub open spec fn spec_first_pos_row(dim: nat) -> Seq<Rat> {
    Seq::new(
        dim,
        |c: int|
            Rat {
                num: if c == 0 {
                    1
                } else {
                    0
                },
                den: 1,
            },
    )
}

/// The velocity constraint at parameter zero: `0, 1, 0, ..., 0` (cut to the
/// matrix width where that width is one).
pub open spec fn spec_first_vel_row(dim: nat) -> Seq<Rat> {
    Seq::new(
        dim,
        |c: int|
            Rat {
                num: if c == 1 {
                    1
                } else {
                    0
                },
                den: 1,
            },
    )
}

/// The per-control-point blocks of the position and velocity matrices, from
/// control point `i` on; `None` where an entry leaves the range.
pub open spec fn spec_build(uv: Seq<int>, i: int, dim: nat) -> Option<
    (Seq<Seq<Rat>>, Seq<Seq<Rat>>),
>
    decreases uv.len() - i,
{
    if i < 0 || i >= uv.len() {
        Some((Seq::empty(), Seq::empty()))
    } else {
        match (spec_pos_row(uv[i], dim), spec_vel_row(uv[i], dim)) {
            (Some(pr), Some(vr)) => match spec_build(uv, i + 1, dim) {
                None => None,
                Some(t) => Some((seq![pr] + t.0, seq![vr] + t.1)),
            },
            _ => None,
        }
    }
}

/// Width of the constraint matrix for `n` control points: one row per point
/// plus the always-true row, doubled on the velocity path.
pub open spec fn spec_matrix_dim(n: int, velocity: bool) -> int {
    (n + 1) * (if velocity {
        2int
    } else {
        1int
    })
}

/// Spec mirror of the whole generator: parse, split into axes, collect
/// control points, assemble both constraint matrices, solve each axis
/// against its own data rows, and concatenate the x-axis coefficients ahead
/// of the y-axis ones.
pub open spec fn spec_generate_equation(data: Seq<u8>) -> Result<Seq<Rat>, SplineError> {
    match crate::csv::spec_from_str(data) {
        Err(e) => Err(e),
        Ok(t) => {
            let velocity = crate::csv::spec_has_velocity(t.0);
            let xs = crate::csv::spec_project(t.1, true);
            let ys = crate::csv::spec_project(t.1, false);
            let uv = spec_uv(xs, 0, 0, Seq::empty());
            let n = uv.len() as int;
            if n + 1 > 0x3fff_ffff {
                Err(SplineError::Overflow)
            } else {
                let dim = spec_matrix_dim(n, velocity) as nat;
                match spec_build(uv, 0, dim) {
                    None => Err(SplineError::Overflow),
                    Some(b) => {
                        let pos = seq![spec_first_pos_row(dim)] + b.0;
                        let vel = seq![spec_first_vel_row(dim)] + b.1;
                        match crate::solve::spec_row_reduce(pos, vel, xs, velocity) {
                            Err(e) => Err(e),
                            Ok(r1) => match crate::solve::spec_row_reduce(pos, vel, ys, velocity) {
                                Err(e) => Err(e),
                                Ok(r2) => Ok(r1.1 + r2.1),
                            },
                        }
                    },
                }
            }
        },
    }
}

/// The always-true first position row, as a vector.
#[verifier::loop_isolation(false)]
fn first_pos_row(dim: usize) -> (out: Vec<Rat>)
    ensures
        out@ == spec_first_pos_row(dim as nat),
        crate::solve::row_wf(out@),
{
    let mut v: Vec<Rat> = Vec::new();
    let mut c: usize = 0;
    while c < dim
        invariant
            0 <= c <= dim,
            v@.len() == c,
            forall|k: int|
                0 <= k < c ==> v@[k] == (Rat {
                    num: if k == 0 {
                        1i64
                    } else {
                        0i64
                    },
                    den: 1i64,
                }),
        decreases dim - c,
    {
        if c == 0 {
            v.push(Rat { num: 1, den: 1 });
        } else {
            v.push(Rat { num: 0, den: 1 });
        }
        c += 1;
    }
    proof {
        assert(v@ =~= spec_first_pos_row(dim as nat));
    }
    v
}

/// The first velocity row, as a vector.
#[verifier::loop_isolation(false)]
fn first_vel_row(dim: usize) -> (out: Vec<Rat>)
    ensures
        out@ == spec_first_vel_row(dim as nat),
        crate::solve::row_wf(out@),
{
    let mut v: Vec<Rat> = Vec::new();
    let mut c: usize = 0;
    while c < dim
        invariant
            0 <= c <= dim,
            v@.len() == c,
            forall|k: int|
                0 <= k < c ==> v@[k] == (Rat {
                    num: if k == 1 {
                        1i64
                    } else {
                        0i64
                    },
                    den: 1i64,
                }),
        decreases dim - c,
    {
        if c == 1 {
            v.push(Rat { num: 1, den: 1 });
        } else {
            v.push(Rat { num: 0, den: 1 });
        }
        c += 1;
    }
    proof {
        assert(v@ =~= spec_first_vel_row(dim as nat));
    }
    v
}

/// The position row of one control point.
#[verifier::loop_isolation(false)]
fn pos_row(u: i64, dim: usize) -> (out: Option<Vec<Rat>>)
    requires
        in_num_range(u as int),
    ensures
        out matches Some(v) ==> spec_pos_row(u as int, dim as nat) == Some(v@)
            && crate::solve::row_wf(v@),
        out is None ==> spec_pos_row(u as int, dim as nat) is None,
{
    let mut v: Vec<Rat> = Vec::new();
    let mut c: usize = 0;
    while c < dim
        invariant
            0 <= c <= dim,
            v@.len() == c,
            forall|k: int| 0 <= k < c ==> (#[trigger] spec_pos_entry(u as int, k as nat)) is Some,
            forall|k: int| 0 <= k < c ==> v@[k] == spec_pos_entry(u as int, k as nat)->Some_0,
            forall|k: int| 0 <= k < c ==> (#[trigger] v@[k]).wf(),
        decreases dim - c,
    {
        match ipow(u, c) {
            None => {
                proof {
                    let ci = c as int;
                    assert(spec_pos_entry(u as int, ci as nat) is None);
                }
                return None;
            },
            Some(p) => {
                v.push(Rat { num: p, den: 1 });
            },
        }
        c += 1;
    }
    proof {
        assert(v@ =~= Seq::new(dim as nat, |k: int| spec_pos_entry(u as int, k as nat)->Some_0));
    }
    Some(v)
}

/// The velocity row of one control point.
#[verifier::loop_isolation(false)]
fn vel_row(u: i64, dim: usize) -> (out: Option<Vec<Rat>>)
    requires
        in_num_range(u as int),
        dim <= 0x7fff_ffff,
    ensures
        out matches Some(v) ==> spec_vel_row(u as int, dim as nat) == Some(v@)
            && crate::solve::row_wf(v@),
        out is None ==> spec_vel_row(u as int, dim as nat) is None,
{
    let mut v: Vec<Rat> = Vec::new();
    let mut c: usize = 0;
    while c < dim
        invariant
            0 <= c <= dim,
            v@.len() == c,
            forall|k: int| 0 <= k < c ==> (#[trigger] spec_vel_entry(u as int, k as nat)) is Some,
            forall|k: int| 0 <= k < c ==> v@[k] == spec_vel_entry(u as int, k as nat)->Some_0,
            forall|k: int| 0 <= k < c ==> (#[trigger] v@[k]).wf(),
        decreases dim - c,
    {
        if c == 0 {
            v.push(Rat { num: 0, den: 1 });
        } else {
            match ipow(u, c - 1) {
                None => {
                    proof {
                        let ci = c as int;
                        assert(spec_vel_entry(u as int, ci as nat) is None);
                    }
                    return None;
                },
                Some(p) => {
                    proof {
                        assert((c as int) * (p as int) <= 0x4000_0000_0000_0000_0000_0000 && (
                        c as int) * (p as int) >= -0x4000_0000_0000_0000_0000_0000) by (
                        nonlinear_arith)
                            requires
                                0 <= c as int <= 0x7fff_ffff,
                                -0x7fff_ffff_ffff_ffff <= p as int <= 0x7fff_ffff_ffff_ffff,
                        ;
                    }
                    let w: i128 = (c as i128) * (p as i128);
                    if w < -0x7fff_ffff_ffff_ffffi128 || w > 0x7fff_ffff_ffff_ffffi128 {
                        proof {
                            let ci = c as int;
                            assert(spec_vel_entry(u as int, ci as nat) is None);
                        }
                        return None;
                    }
                    v.push(Rat { num: w as i64, den: 1 });
                },
            }
        }
        c += 1;
    }
    proof {
        assert(v@ =~= Seq::new(dim as nat, |k: int| spec_vel_entry(u as int, k as nat)->Some_0));
    }
    Some(v)
}

/// Generate the concatenated coefficient vectors for both axes from raw
/// tabular text. The result is pinned to `spec_generate_equation`: the same
/// bytes always give the same coefficients, any malformed numeral or
/// wrong-arity cell is that line's parse error, and a system that cannot be
/// reduced is a solver error; nothing partial is returned.
#[verifier::loop_isolation(false)]
#[verifier::rlimit(100)]
pub fn generate_equation(data: &Vec<u8>) -> (out: Result<Vec<Rat>, SplineError>)
    ensures
        out matches Ok(v) ==> spec_generate_equation(data@) == Ok::<Seq<Rat>, SplineError>(v@)
            && crate::solve::row_wf(v@),
        out matches Err(e) ==> spec_generate_equation(data@) == Err::<Seq<Rat>, SplineError>(e),
{
    let csv = match crate::csv::Csv::from_str(data) {
        Ok(c) => c,
        Err(e) => {
            return Err(e);
        },
    };
    let velocity = csv.has_velocity();
    let ghost csvv = (
        crate::csv::bytes_view(csv.columns),
        crate::csv::prows_view(csv.rows),
    );
    let (x, y) = csv.split();
    let ghost xs = crate::csv::spec_project(csvv.1, true);
    let ghost ys = crate::csv::spec_project(csvv.1, false);
    let uv = control_points(&x.rows);
    let ghost uvv = spec_uv(xs, 0, 0, Seq::empty());
    let n = uv.len();
    if n > 0x3fff_fffe {
        return Err(SplineError::Overflow);
    }
    let dim: usize = (n + 1) * (if velocity {
        2
    } else {
        1
    });
    let ghost dimn = spec_matrix_dim(n as int, velocity) as nat;
    proof {
        assert(dim as nat == dimn);
    }
    let mut cp: Vec<Vec<Rat>> = Vec::new();
    let mut cv: Vec<Vec<Rat>> = Vec::new();
    cp.push(first_pos_row(dim));
    cv.push(first_vel_row(dim));
    let mut i: usize = 0;
    while i < n
        invariant
            0 <= i <= n,
            n == uv@.len(),
            n + 1 <= 0x4000_0000,
            dim <= 0x7fff_ffff,
            dim as nat == dimn,
            cp@.len() == i + 1,
            cv@.len() == i + 1,
            ints_view(uv) == uvv,
            forall|k: int| 0 <= k < uv@.len() ==> 0 < #[trigger] uv@[k],
            crate::solve::mat_view(cp)[0] == spec_first_pos_row(dimn),
            crate::solve::mat_view(cv)[0] == spec_first_vel_row(dimn),
            crate::solve::mat_wf(crate::solve::mat_view(cp)),
            crate::solve::mat_wf(crate::solve::mat_view(cv)),
            (match spec_build(uvv, i as int, dimn) {
                None => spec_build(uvv, 0, dimn) is None,
                Some(t) => spec_build(uvv, 0, dimn) == Some(
                    (
                        crate::solve::mat_view(cp).subrange(1, i + 1) + t.0,
                        crate::solve::mat_view(cv).subrange(1, i + 1) + t.1,
                    ),
                ),
            }),
        decreases n - i,
    {
        let u: i64 = uv[i];
        proof {
            assert(uvv[i as int] == u as int);
        }
        let pr = match pos_row(u, dim) {
            None => {
                return Err(SplineError::Overflow);
            },
            Some(r) => r,
        };
        let vr = match vel_row(u, dim) {
            None => {
                return Err(SplineError::Overflow);
            },
            Some(r) => r,
        };
        let ghost cpv = crate::solve::mat_view(cp);
        let ghost cvv = crate::solve::mat_view(cv);
        cp.push(pr);
        cv.push(vr);
        proof {
            assert(crate::solve::mat_view(cp) =~= cpv.push(pr@));
            assert(crate::solve::mat_view(cv) =~= cvv.push(vr@));
            assert(crate::solve::mat_view(cp).subrange(1, i + 2) =~= cpv.subrange(1, i + 1).push(
                pr@,
            ));
            assert(crate::solve::mat_view(cv).subrange(1, i + 2) =~= cvv.subrange(1, i + 1).push(
                vr@,
            ));
            if spec_build(uvv, i + 1, dimn) is Some {
                let t = spec_build(uvv, i + 1, dimn)->Some_0;
                assert(cpv.subrange(1, i + 1) + (seq![pr@] + t.0) =~= cpv.subrange(1, i + 1).push(
                    pr@,
                ) + t.0);
                assert(cvv.subrange(1, i + 1) + (seq![vr@] + t.1) =~= cvv.subrange(1, i + 1).push(
                    vr@,
                ) + t.1);
            }
        }
        i += 1;
    }
    let ghost posv = seq![spec_first_pos_row(dimn)] + spec_build(uvv, n as int, dimn)->Some_0.0;
    proof {
        assert(spec_build(uvv, n as int, dimn) == Some(
            (Seq::<Seq<Rat>>::empty(), Seq::<Seq<Rat>>::empty()),
        ));
        let b = spec_build(uvv, 0, dimn)->Some_0;
        assert(crate::solve::mat_view(cp).subrange(1, n + 1) + Seq::<Seq<Rat>>::empty()
            =~= crate::solve::mat_view(cp).subrange(1, n + 1));
        assert(crate::solve::mat_view(cv).subrange(1, n + 1) + Seq::<Seq<Rat>>::empty()
            =~= crate::solve::mat_view(cv).subrange(1, n + 1));
        assert(seq![spec_first_pos_row(dimn)] + b.0 =~= crate::solve::mat_view(cp));
        assert(seq![spec_first_vel_row(dimn)] + b.1 =~= crate::solve::mat_view(cv));
    }
    let cp2 = crate::solve::clone_mat(&cp);
    let cv2 = crate::solve::clone_mat(&cv);
    let r1 = match crate::solve::row_reduce(cp2, cv2, &x.rows, velocity) {
        Ok(r) => r,
        Err(e) => {
            return Err(e);
        },
    };
    let r2 = match crate::solve::row_reduce(cp, cv, &y.rows, velocity) {
        Ok(r) => r,
        Err(e) => {
            return Err(e);
        },
    };
    let (_g1, mut res) = r1;
    let (_g2, mut res2) = r2;
    res.append(&mut res2);
    Ok(res)
}

/// One power of the parameter value, with overflow reported.
pub open spec fn spec_rat_pow(t: Rat, e: nat) -> Option<Rat>
    decreases e,
{
    if e == 0 {
        Some(Rat { num: 1, den: 1 })
    } else {
        match spec_rat_pow(t, (e - 1) as nat) {
            None => None,
            Some(p) => Rat::spec_mul(p, t),
        }
    }
}

/// Once a power leaves the range, every higher power does too.
proof fn lemma_rat_pow_none(t: Rat, k: nat, e: nat)
    requires
        k <= e,
        spec_rat_pow(t, k) is None,
    ensures
        spec_rat_pow(t, e) is None,
    decreases e,
{
    if e == k {
    } else {
        lemma_rat_pow_none(t, k, (e - 1) as nat);
    }
}

/// The parameter raised to a power.
#[verifier::loop_isolation(false)]
fn rat_pow(t: Rat, e: usize) -> (out: Option<Rat>)
    requires
        t.wf(),
    ensures
        out == spec_rat_pow(t, e as nat),
        out matches Some(p) ==> p.wf(),
{
    let mut p = Rat { num: 1, den: 1 };
    let mut j: usize = 0;
    while j < e
        invariant
            0 <= j <= e,
            spec_rat_pow(t, j as nat) == Some(p),
            p.wf(),
        decreases e - j,
    {
        match p.mul(t) {
            None => {
                proof {
                    assert(spec_rat_pow(t, (j + 1) as nat) is None);
                    lemma_rat_pow_none(t, (j + 1) as nat, e as nat);
                }
                return None;
            },
            Some(q) => {
                p = q;
            },
        }
        j += 1;
    }
    Some(p)
}

/// The sampled value at parameter `t`: the sum of `eq[i] * t^i` over every
/// index but zero — the constant term is never added.
pub open spec fn spec_eval_terms(eq: Seq<Rat>, t: Rat, i: int, acc: Rat) -> Result<
    Rat,
    SplineError,
>
    decreases eq.len() - i,
{
    if i < 0 || i >= eq.len() {
        Ok(acc)
    } else if i == 0 {
        spec_eval_terms(eq, t, i + 1, acc)
    } else {
        match spec_rat_pow(t, i as nat) {
            None => Err(SplineError::Overflow),
            Some(pw) => match Rat::spec_mul(eq[i], pw) {
                None => Err(SplineError::Overflow),
                Some(term) => match Rat::spec_add(acc, term) {
                    None => Err(SplineError::Overflow),
                    Some(a2) => spec_eval_terms(eq, t, i + 1, a2),
                },
            },
        }
    }
}

/// Evaluate the polynomial's non-constant terms at `t`.
#[verifier::loop_isolation(false)]
fn eval_terms(eq: &Vec<Rat>, t: Rat) -> (out: Result<Rat, SplineError>)
    requires
        crate::solve::row_wf(eq@),
        t.wf(),
    ensures
        out == spec_eval_terms(eq@, t, 0, Rat { num: 0, den: 1 }),
        out matches Ok(v) ==> v.wf(),
{
    let n = eq.len();
    let mut acc = Rat { num: 0, den: 1 };
    let mut i: usize = 0;
    while i < n
        invariant
            0 <= i <= n,
            n == eq@.len(),
            acc.wf(),
            spec_eval_terms(eq@, t, 0, Rat { num: 0, den: 1 }) == spec_eval_terms(
                eq@,
                t,
                i as int,
                acc,
            ),
        decreases n - i,
    {
        if i > 0 {
            let pw = match rat_pow(t, i) {
                None => {
                    return Err(SplineError::Overflow);
                },
                Some(p) => p,
            };
            proof {
                assert(eq@[i as int].wf());
            }
            let term = match eq[i].mul(pw) {
                None => {
                    return Err(SplineError::Overflow);
                },
                Some(m) => m,
            };
            acc = match acc.add(term) {
                None => {
                    return Err(SplineError::Overflow);
                },
                Some(a) => a,
            };
        }
        i += 1;
    }
    Ok(acc)
}

/// The sampled list: values of the polynomial at `0, step, 2*step, ...`
/// while the parameter is below `t_stop` and fewer than `max` samples exist.
pub open spec fn spec_gen_list(
    eq: Seq<Rat>,
    step: Rat,
    t_stop: int,
    max: int,
    t: Rat,
    acc: Seq<Rat>,
) -> Result<Seq<Rat>, SplineError>
    decreases max - acc.len(),
{
    if !(t.num < t_stop * t.den) || acc.len() >= max {
        Ok(acc)
    } else {
        match spec_eval_terms(eq, t, 0, Rat { num: 0, den: 1 }) {
            Err(e) => Err(e),
            Ok(v) => match Rat::spec_add(t, step) {
                None => Err(SplineError::Overflow),
                Some(t2) => spec_gen_list(eq, step, t_stop, max, t2, acc.push(v)),
            },
        }
    }
}

/// Sample the polynomial described by `equation` at evenly spaced parameter
/// values below `t_stop`, at most `max_list` samples. The constant term is
/// never added to a sample. The result is pinned to `spec_gen_list` started
/// at parameter zero with no samples.
#[verifier::loop_isolation(false)]
pub fn generate_list(equation: &Vec<Rat>, step: Rat, t_stop: u32, max_list: u32) -> (out: Result<
    Vec<Rat>,
    SplineError,
>)
    requires
        crate::solve::row_wf(equation@),
        step.wf(),
    ensures
        out matches Ok(v) ==> spec_gen_list(
            equation@,
            step,
            t_stop as int,
            max_list as int,
            Rat { num: 0, den: 1 },
            Seq::empty(),
        ) == Ok::<Seq<Rat>, SplineError>(v@) && crate::solve::row_wf(v@),
        out matches Err(e) ==> spec_gen_list(
            equation@,
            step,
            t_stop as int,
            max_list as int,
            Rat { num: 0, den: 1 },
            Seq::empty(),
        ) == Err::<Seq<Rat>, SplineError>(e),
{
    let mut out: Vec<Rat> = Vec::new();
    let mut t = Rat { num: 0, den: 1 };
    let max = max_list as usize;
    proof {
        assert(out@ =~= Seq::<Rat>::empty());
    }
    loop
        invariant
            t.wf(),
            crate::solve::row_wf(out@),
            out@.len() <= max,
            max == max_list as int,
            spec_gen_list(
                equation@,
                step,
                t_stop as int,
                max_list as int,
                Rat { num: 0, den: 1 },
                Seq::empty(),
            ) == spec_gen_list(equation@, step, t_stop as int, max_list as int, t, out@),
        decreases max - out@.len() + 1,
    {
        proof {
            assert((t_stop as int) * (t.den as int) <= 0x1_0000_0000_0000_0000_0000_0000 && (
            t_stop as int) * (t.den as int) >= 0) by (nonlinear_arith)
                requires
                    0 <= (t_stop as int) < 0x1_0000_0000,
                    0 < (t.den as int) <= 0x7fff_ffff_ffff_ffff,
            ;
        }
        let below = (t.num as i128) < (t_stop as i128) * (t.den as i128);
        if !(below && out.len() < max) {
            return Ok(out);
        }
        let v = match eval_terms(equation, t) {
            Err(e) => {
                return Err(e);
            },
            Ok(v) => v,
        };
        out.push(v);
        t = match t.add(step) {
            None => {
                return Err(SplineError::Overflow);
            },
            Some(t2) => t2,
        };
    }
}

/// The generator is a function of its input text: two results that both meet
/// its contract on the same bytes are bit-identical.
pub proof fn lemma_generate_equation_idempotent(
    data: Seq<u8>,
    r1: Result<Seq<Rat>, SplineError>,
    r2: Result<Seq<Rat>, SplineError>,
)
    requires
        r1 == spec_generate_equation(data),
        r2 == spec_generate_equation(data),
    ensures
        r1 == r2,
{
}

/// The velocity path doubles the matrix width that the same control points
/// give without it.
pub proof fn lemma_velocity_doubles_dim(n: int)
    ensures
        spec_matrix_dim(n, true) == 2 * spec_matrix_dim(n, false),
{
}

/// The per-control-point blocks hold one row pair per control point, each of
/// width `dim`.
proof fn lemma_build_shape(uv: Seq<int>, i: int, dim: nat)
    requires
        spec_build(uv, i, dim) is Some,
        0 <= i <= uv.len(),
    ensures
        spec_build(uv, i, dim)->Some_0.0.len() == uv.len() - i,
        spec_build(uv, i, dim)->Some_0.1.len() == uv.len() - i,
        forall|k: int|
            0 <= k < uv.len() - i ==> (#[trigger] spec_build(uv, i, dim)->Some_0.0[k]).len()
                == dim,
        forall|k: int|
            0 <= k < uv.len() - i ==> (#[trigger] spec_build(uv, i, dim)->Some_0.1[k]).len()
                == dim,
    decreases uv.len() - i,
{
    if i < 0 || i >= uv.len() {
    } else {
        match (spec_pos_row(uv[i], dim), spec_vel_row(uv[i], dim)) {
            (Some(_), Some(_)) => match spec_build(uv, i + 1, dim) {
                None => {},
                Some(_) => {
                    lemma_build_shape(uv, i + 1, dim);
                },
            },
            _ => {},
        }
    }
}

/// The generator returns one coefficient per constraint row on each axis, so
/// its output is twice the matrix width of the table's control points — and
/// by `lemma_velocity_doubles_dim`, a velocity column doubles the output
/// that the same control points give without one.
pub proof fn lemma_output_length(
    data: Seq<u8>,
    t: (Seq<Seq<u8>>, Seq<Seq<crate::csv::Pair>>),
    v: Seq<Rat>,
)
    requires
        crate::csv::spec_from_str(data) == Ok::<
            (Seq<Seq<u8>>, Seq<Seq<crate::csv::Pair>>),
            SplineError,
        >(t),
        spec_generate_equation(data) == Ok::<Seq<Rat>, SplineError>(v),
    ensures
        v.len() == 2 * spec_matrix_dim(
            spec_uv(crate::csv::spec_project(t.1, true), 0, 0, Seq::empty()).len() as int,
            crate::csv::spec_has_velocity(t.0),
        ),
{
    let velocity = crate::csv::spec_has_velocity(t.0);
    let xs = crate::csv::spec_project(t.1, true);
    let ys = crate::csv::spec_project(t.1, false);
    let uv = spec_uv(xs, 0, 0, Seq::empty());
    let n = uv.len() as int;
    let dim = spec_matrix_dim(n, velocity) as nat;
    let b = spec_build(uv, 0, dim)->Some_0;
    lemma_build_shape(uv, 0, dim);
    let pos = seq![spec_first_pos_row(dim)] + b.0;
    let vel = seq![spec_first_vel_row(dim)] + b.1;
    assert(dim >= 1);
    assert(pos.len() == n + 1 && vel.len() == n + 1);
    assert(crate::solve::rows_nonempty(pos)) by {
        assert forall|i: int| 0 <= i < pos.len() implies (#[trigger] pos[i]).len() > 0 by {
            if i == 0 {
                assert(pos[0] == spec_first_pos_row(dim));
            } else {
                assert(pos[i] == b.0[i - 1]);
            }
        }
    }
    assert(crate::solve::rows_nonempty(vel)) by {
        assert forall|i: int| 0 <= i < vel.len() implies (#[trigger] vel[i]).len() > 0 by {
            if i == 0 {
                assert(vel[0] == spec_first_vel_row(dim));
            } else {
                assert(vel[i] == b.1[i - 1]);
            }
        }
    }
    crate::solve::lemma_row_reduce_output_length(pos, vel, xs, velocity);
    crate::solve::lemma_row_reduce_output_length(pos, vel, ys, velocity);
}

/// With no qualifying control points and no velocity request, the assembled
/// system is the single always-true constraint, and the solve succeeds with
/// the first data row's sample as the one coefficient: a trivial one-term
/// solution, not a failure.
pub proof fn lemma_trivial_solution(dir: Seq<Seq<Rat>>)
    requires
        dir.len() >= 1,
        dir[0].len() >= 2,
        dir[0][1].wf(),
    ensures
        crate::solve::spec_row_reduce(
            seq![spec_first_pos_row(1)],
            seq![spec_first_vel_row(1)],
            dir,
            false,
        ) == Ok::<(Seq<Seq<Rat>>, Seq<Rat>), SplineError>(
            (seq![seq![Rat { num: 1, den: 1 }, dir[0][1]]], seq![dir[0][1]]),
        ),
{
    let one = Rat { num: 1, den: 1 };
    let rhs = dir[0][1];
    let pos = seq![spec_first_pos_row(1)];
    let vel = seq![spec_first_vel_row(1)];
    let aug: Seq<Seq<Rat>> = seq![seq![one, rhs]];
    assert(spec_first_pos_row(1) =~= seq![one]);
    assert(!(exists|i: int|
        0 <= i < pos.len() && i < dir.len() && (#[trigger] dir[i]).len() < 2)) by {
        assert forall|i: int| 0 <= i < pos.len() && i < dir.len() implies (#[trigger] dir[
            i
        ]).len() >= 2 by {
            assert(i == 0);
        }
    }
    assert(spec_first_pos_row(1).push(dir[0][1]) =~= seq![one, rhs]);
    let pos2 = Seq::new(
        pos.len(),
        |i: int|
            if i < dir.len() {
                pos[i].push(dir[i][1])
            } else {
                pos[i]
            },
    );
    assert(pos2 =~= aug);
    assert(crate::solve::spec_augment(pos, vel, dir, false) == Ok::<Seq<Seq<Rat>>, SplineError>(
        aug,
    ));
    let r0 = aug[0];
    assert(r0[0] == one && r0[1] == rhs);
    assert(crate::solve::first_nonzero_from(r0, 0) == Some(0int));
    let rec = Rat::spec_recip(r0[0]);
    assert(rec == one);
    assert(Rat::spec_mul(r0[0], rec) == Some(one));
    assert(Rat::spec_mul(r0[1], rec) == Some(rhs));
    let scaled = crate::solve::spec_scale_row(r0, rec);
    assert(scaled is Ok);
    assert(scaled->Ok_0 =~= r0);
    assert(aug.update(0, scaled->Ok_0) =~= aug);
    assert(crate::solve::spec_elim_rows(aug, 0, 0, 1) == Ok::<Seq<Seq<Rat>>, SplineError>(aug));
    assert(crate::solve::spec_elim_rows(aug, 0, 0, 0) == Ok::<Seq<Seq<Rat>>, SplineError>(aug));
    assert(crate::solve::spec_elim_col(aug, 0) == Ok::<Seq<Seq<Rat>>, SplineError>(aug));
    assert(crate::solve::spec_reduce_cols(aug, 1, 1) == Ok::<Seq<Seq<Rat>>, SplineError>(aug));
    assert(crate::solve::spec_reduce_cols(aug, 0, 1) == Ok::<Seq<Seq<Rat>>, SplineError>(aug));
    assert(crate::solve::spec_row_of_col(aug, 0, 1, Some(0)) == Ok::<Option<int>, SplineError>(
        Some(0int),
    ));
    assert(crate::solve::spec_row_of_col(aug, 0, 0, None) == Ok::<Option<int>, SplineError>(
        Some(0int),
    ));
    assert(crate::solve::swap_rows(aug, 0, 0) =~= aug);
    assert(crate::solve::spec_reorder(aug, 1, 1, 1) == Ok::<Seq<Seq<Rat>>, SplineError>(aug));
    assert(crate::solve::spec_reorder(aug, 1, 0, 0) == Ok::<Seq<Seq<Rat>>, SplineError>(aug));
    assert(aug.drop_last() =~= Seq::<Seq<Rat>>::empty());
    assert(crate::solve::spec_read_off(Seq::<Seq<Rat>>::empty()) == Seq::<Rat>::empty());
    assert(aug.last() == seq![one, rhs]);
    assert(aug.last().last() == rhs);
    assert(crate::solve::spec_read_off(aug) == crate::solve::spec_read_off(
        aug.drop_last(),
    ).push(rhs));
    assert(crate::solve::spec_read_off(aug) =~= seq![rhs]);
}

/// Multiplying by zero and by one, for terms the default solver treats as
/// opaque products.
proof fn lemma_zero_one_mul(a: int) by (nonlinear_arith)
    ensures
        0 * a == 0,
        a * 0 == 0,
        1 * a == a,
        a * 1 == a,
{
}

/// With no qualifying control points on the velocity path, the system is the
/// two always-true constraints and the solve succeeds with a two-term
/// solution: the first data row's position and velocity samples, as rational
/// numbers. The range conditions keep the elimination's exact products
/// representable; a first data row without a third component is excluded, as
/// its velocity row is never augmented and the ragged solve fails.
pub proof fn lemma_trivial_solution_velocity(dir: Seq<Seq<Rat>>)
    requires
        dir.len() >= 1,
        dir[0].len() >= 3,
        dir[0][1].wf(),
        dir[0][2].wf(),
        in_num_range(dir[0][2].num * dir[0][1].den),
        crate::rat::in_den_range(dir[0][2].den * dir[0][1].den),
        in_num_range(dir[0][1].num * (dir[0][2].den * dir[0][1].den)),
        crate::rat::in_den_range(dir[0][1].den * (dir[0][2].den * dir[0][1].den)),
    ensures
        ({
            let res = crate::solve::spec_row_reduce(
                seq![spec_first_pos_row(2)],
                seq![spec_first_vel_row(2)],
                dir,
                true,
            );
            res is Ok && res->Ok_0.1.len() == 2 && crate::rat::rat_eq(res->Ok_0.1[0], dir[0][1])
                && crate::rat::rat_eq(res->Ok_0.1[1], dir[0][2])
        }),
{
    let one = Rat { num: 1, den: 1 };
    let zero = Rat { num: 0, den: 1 };
    let r1 = dir[0][1];
    let r2 = dir[0][2];
    let pos = seq![spec_first_pos_row(2)];
    let vel = seq![spec_first_vel_row(2)];
    let row0: Seq<Rat> = seq![one, zero, r1];
    let row1: Seq<Rat> = seq![zero, one, r2];
    let aug: Seq<Seq<Rat>> = seq![row0, row1];
    // augmentation appends the two samples to the two initial rows
    assert(!(exists|i: int|
        0 <= i < pos.len() && i < dir.len() && (#[trigger] dir[i]).len() < 2)) by {
        assert forall|i: int| 0 <= i < pos.len() && i < dir.len() implies (#[trigger] dir[
            i
        ]).len() >= 2 by {
            assert(i == 0);
        }
    }
    assert(spec_first_pos_row(2).push(dir[0][1]) =~= row0);
    assert(spec_first_vel_row(2).push(dir[0][2]) =~= row1);
    assert(crate::solve::spec_vel_aug_len(vel, dir, 1) == 1);
    assert(crate::solve::spec_vel_aug_len(vel, dir, 0) == 1);
    let pos2 = Seq::new(
        pos.len(),
        |i: int|
            if i < dir.len() {
                pos[i].push(dir[i][1])
            } else {
                pos[i]
            },
    );
    let vel2 = Seq::new(
        vel.len(),
        |i: int|
            if i < 1 {
                vel[i].push(dir[i][2])
            } else {
                vel[i]
            },
    );
    assert(pos2 =~= seq![row0]);
    assert(vel2 =~= seq![row1]);
    assert(pos2 + vel2 =~= aug);
    assert(crate::solve::spec_augment(pos, vel, dir, true) == Ok::<Seq<Seq<Rat>>, SplineError>(
        aug,
    ));
    lemma_zero_one_mul(r1.num as int);
    lemma_zero_one_mul(r1.den as int);
    lemma_zero_one_mul(r2.num as int);
    lemma_zero_one_mul(r2.den as int);
    // first elimination pass: row 0 leads in column 0 and is already scaled
    assert(crate::solve::first_nonzero_from(row0, 0) == Some(0int));
    assert(Rat::spec_recip(one) == one);
    assert(Rat::spec_mul(one, one) == Some(one));
    assert(Rat::spec_mul(zero, one) == Some(zero));
    assert(Rat::spec_mul(r1, one) == Some(r1));
    assert(crate::solve::spec_scale_row(row0, one) is Ok);
    assert(crate::solve::spec_scale_row(row0, one)->Ok_0 =~= row0);
    assert(aug.update(0, crate::solve::spec_scale_row(row0, one)->Ok_0) =~= aug);
    // clearing column 0 of row 1 multiplies its sample's fields by r1's
    // denominator, an equal rational
    let r2b = Rat {
        num: (r2.num * r1.den) as i64,
        den: (r2.den * r1.den) as i64,
    };
    let row1b: Seq<Rat> = seq![zero, one, r2b];
    lemma_zero_one_mul(r2b.num as int);
    lemma_zero_one_mul(r2b.den as int);
    assert(Rat::spec_neg(zero) == zero);
    assert(Rat::spec_mul(row0[0], zero) == Some(zero));
    assert(Rat::spec_add(row1[0], zero) == Some(zero));
    assert(Rat::spec_mul(row0[1], zero) == Some(zero));
    assert(Rat::spec_add(row1[1], zero) == Some(one));
    assert(Rat::spec_mul(row0[2], zero) == Some(Rat { num: 0, den: r1.den }));
    assert(Rat::spec_add(row1[2], Rat { num: 0, den: r1.den }) == Some(r2b));
    assert(row1.update(0, zero) =~= row1);
    assert(row1.update(1, one) =~= row1);
    assert(row1.update(2, r2b) =~= row1b);
    assert(crate::solve::spec_add_scaled(row1b, row0, zero, 3) == Ok::<Seq<Rat>, SplineError>(
        row1b,
    ));
    assert(crate::solve::spec_add_scaled(row1, row0, zero, 2) == Ok::<Seq<Rat>, SplineError>(
        row1b,
    ));
    assert(crate::solve::spec_add_scaled(row1, row0, zero, 1) == Ok::<Seq<Rat>, SplineError>(
        row1b,
    ));
    assert(crate::solve::spec_add_scaled(row1, row0, zero, 0) == Ok::<Seq<Rat>, SplineError>(
        row1b,
    ));
    let m1: Seq<Seq<Rat>> = seq![row0, row1b];
    assert(aug.update(1, row1b) =~= m1);
    assert(crate::solve::spec_elim_rows(m1, 0, 0, 2) == Ok::<Seq<Seq<Rat>>, SplineError>(m1));
    assert(crate::solve::spec_elim_rows(aug, 0, 0, 1) == Ok::<Seq<Seq<Rat>>, SplineError>(m1));
    assert(crate::solve::spec_elim_rows(aug, 0, 0, 0) == Ok::<Seq<Seq<Rat>>, SplineError>(m1));
    assert(crate::solve::spec_elim_col(aug, 0) == Ok::<Seq<Seq<Rat>>, SplineError>(m1));
    // second elimination pass: row 1 leads in column 1; clearing it scales
    // row 0's sample by the transformed velocity sample's denominator
    assert(crate::solve::first_nonzero_from(row1b, 1) == Some(1int));
    assert(crate::solve::first_nonzero_from(row1b, 0) == Some(1int));
    assert(Rat::spec_recip(row1b[1]) == one);
    assert(Rat::spec_mul(r2b, one) == Some(r2b));
    assert(crate::solve::spec_scale_row(row1b, one) is Ok);
    assert(crate::solve::spec_scale_row(row1b, one)->Ok_0 =~= row1b);
    assert(m1.update(1, crate::solve::spec_scale_row(row1b, one)->Ok_0) =~= m1);
    let r1b = Rat {
        num: (r1.num * (r2.den * r1.den)) as i64,
        den: (r1.den * (r2.den * r1.den)) as i64,
    };
    let row0b: Seq<Rat> = seq![one, zero, r1b];
    lemma_zero_one_mul(r1b.num as int);
    lemma_zero_one_mul(r1b.den as int);
    assert(Rat::spec_neg(m1[0][1]) == zero);
    assert(Rat::spec_mul(row1b[0], zero) == Some(zero));
    assert(Rat::spec_add(row0[0], zero) == Some(one));
    assert(Rat::spec_mul(row1b[1], zero) == Some(zero));
    assert(Rat::spec_add(row0[1], zero) == Some(zero));
    assert(r2b.den == r2.den * r1.den);
    assert(Rat::spec_mul(row1b[2], zero) == Some(Rat { num: 0, den: r2b.den }));
    assert(Rat::spec_add(row0[2], Rat { num: 0, den: r2b.den }) == Some(r1b));
    assert(row0.update(0, one) =~= row0);
    assert(row0.update(1, zero) =~= row0);
    assert(row0.update(2, r1b) =~= row0b);
    assert(crate::solve::spec_add_scaled(row0b, row1b, zero, 3) == Ok::<Seq<Rat>, SplineError>(
        row0b,
    ));
    assert(crate::solve::spec_add_scaled(row0, row1b, zero, 2) == Ok::<Seq<Rat>, SplineError>(
        row0b,
    ));
    assert(crate::solve::spec_add_scaled(row0, row1b, zero, 1) == Ok::<Seq<Rat>, SplineError>(
        row0b,
    ));
    assert(crate::solve::spec_add_scaled(row0, row1b, zero, 0) == Ok::<Seq<Rat>, SplineError>(
        row0b,
    ));
    let m2: Seq<Seq<Rat>> = seq![row0b, row1b];
    assert(m1.update(0, row0b) =~= m2);
    assert(crate::solve::spec_elim_rows(m2, 1, 1, 2) == Ok::<Seq<Seq<Rat>>, SplineError>(m2));
    assert(crate::solve::spec_elim_rows(m2, 1, 1, 1) == Ok::<Seq<Seq<Rat>>, SplineError>(m2));
    assert(crate::solve::spec_elim_rows(m1, 1, 1, 0) == Ok::<Seq<Seq<Rat>>, SplineError>(m2));
    assert(crate::solve::spec_elim_col(m1, 1) == Ok::<Seq<Seq<Rat>>, SplineError>(m2));
    assert(crate::solve::spec_reduce_cols(m2, 2, 2) == Ok::<Seq<Seq<Rat>>, SplineError>(m2));
    assert(crate::solve::spec_reduce_cols(m1, 1, 2) == Ok::<Seq<Seq<Rat>>, SplineError>(m2));
    assert(crate::solve::spec_reduce_cols(aug, 0, 2) == Ok::<Seq<Seq<Rat>>, SplineError>(m2));
    // both rows already sit at their pivot positions
    assert(crate::solve::first_nonzero_from(row0b, 0) == Some(0int));
    assert(crate::solve::spec_row_of_col(m2, 0, 2, Some(0)) == Ok::<Option<int>, SplineError>(
        Some(0int),
    ));
    assert(crate::solve::spec_row_of_col(m2, 0, 1, Some(0)) == Ok::<Option<int>, SplineError>(
        Some(0int),
    ));
    assert(crate::solve::spec_row_of_col(m2, 0, 0, None) == Ok::<Option<int>, SplineError>(Some(
        0int,
    )));
    assert(crate::solve::swap_rows(m2, 0, 0) =~= m2);
    assert(crate::solve::spec_row_of_col(m2, 1, 2, Some(1)) == Ok::<Option<int>, SplineError>(
        Some(1int),
    ));
    assert(crate::solve::spec_row_of_col(m2, 1, 1, None) == Ok::<Option<int>, SplineError>(Some(
        1int,
    )));
    assert(crate::solve::spec_row_of_col(m2, 1, 0, None) == Ok::<Option<int>, SplineError>(Some(
        1int,
    )));
    assert(crate::solve::swap_rows(m2, 1, 1) =~= m2);
    assert(crate::solve::spec_reorder(m2, 2, 2, 2) == Ok::<Seq<Seq<Rat>>, SplineError>(m2));
    assert(crate::solve::spec_reorder(m2, 2, 1, 1) == Ok::<Seq<Seq<Rat>>, SplineError>(m2));
    assert(crate::solve::spec_reorder(m2, 2, 0, 0) == Ok::<Seq<Seq<Rat>>, SplineError>(m2));
    // read off the right-hand-side column
    assert(m2.drop_last() =~= seq![row0b]);
    assert(seq![row0b].drop_last() =~= Seq::<Seq<Rat>>::empty());
    assert(crate::solve::spec_read_off(Seq::<Seq<Rat>>::empty()) == Seq::<Rat>::empty());
    assert(seq![row0b].last() == row0b && row0b.last() == r1b);
    assert(crate::solve::spec_read_off(seq![row0b]) =~= seq![r1b]);
    assert(m2.last() == row1b && row1b.last() == r2b);
    assert(crate::solve::spec_read_off(m2) =~= seq![r1b, r2b]);
    // the transformed samples are the samples, as rational numbers
    assert(r1b.num * r1.den == r1.num * r1b.den) by (nonlinear_arith)
        requires
            r1b.num == r1.num * (r2.den * r1.den),
            r1b.den == r1.den * (r2.den * r1.den),
    ;
    assert(r2b.num * r2.den == r2.num * r2b.den) by (nonlinear_arith)
        requires
            r2b.num == r2.num * r1.den,
            r2b.den == r2.den * r1.den,
    ;
}

/// The boundary case at the entry point: a parsed table with at least one
/// data row but no qualifying control point, and no velocity column, still
/// generates an equation — the two axes' first samples — rather than
/// failing.
pub proof fn lemma_boundary_generates_trivial_equation(data: Seq<u8>, t: (Seq<Seq<u8>>, Seq<Seq<crate::csv::Pair>>))
    requires
        crate::csv::spec_from_str(data) == Ok::<(Seq<Seq<u8>>, Seq<Seq<crate::csv::Pair>>), SplineError>(t),
        crate::csv::prows_wf(t.1),
        !crate::csv::spec_has_velocity(t.0),
        spec_uv(crate::csv::spec_project(t.1, true), 0, 0, Seq::empty()) == Seq::<int>::empty(),
        t.1.len() >= 1,
        t.1[0].len() >= 2,
    ensures
        spec_generate_equation(data) == Ok::<Seq<Rat>, SplineError>(
            seq![t.1[0][1].x, t.1[0][1].y],
        ),
{
    let xs = crate::csv::spec_project(t.1, true);
    let ys = crate::csv::spec_project(t.1, false);
    let uv = spec_uv(xs, 0, 0, Seq::empty());
    assert(uv.len() == 0);
    assert(spec_matrix_dim(0, false) == 1);
    assert(spec_build(uv, 0, 1) == Some((Seq::<Seq<Rat>>::empty(), Seq::<Seq<Rat>>::empty())));
    let pos = seq![spec_first_pos_row(1)] + Seq::<Seq<Rat>>::empty();
    let vel = seq![spec_first_vel_row(1)] + Seq::<Seq<Rat>>::empty();
    assert(pos =~= seq![spec_first_pos_row(1)]);
    assert(vel =~= seq![spec_first_vel_row(1)]);
    assert(xs.len() == t.1.len() && ys.len() == t.1.len());
    assert(xs[0].len() == t.1[0].len() && ys[0].len() == t.1[0].len());
    assert(xs[0][1] == t.1[0][1].x && ys[0][1] == t.1[0][1].y);
    assert(t.1[0][1].wf());
    lemma_trivial_solution(xs);
    lemma_trivial_solution(ys);
    assert(seq![xs[0][1]] + seq![ys[0][1]] =~= seq![t.1[0][1].x, t.1[0][1].y]);
}

/// The boundary case at the entry point, velocity path: a parsed table with
/// a velocity column, at least one data row of three cells, and no
/// qualifying control point generates a two-term equation per axis — the
/// first row's position and velocity samples as rational numbers — rather
/// than failing. The range conditions keep the elimination's exact products
/// representable.
pub proof fn lemma_boundary_generates_trivial_equation_velocity(
    data: Seq<u8>,
    t: (Seq<Seq<u8>>, Seq<Seq<crate::csv::Pair>>),
)
    requires
        crate::csv::spec_from_str(data) == Ok::<
            (Seq<Seq<u8>>, Seq<Seq<crate::csv::Pair>>),
            SplineError,
        >(t),
        crate::csv::prows_wf(t.1),
        crate::csv::spec_has_velocity(t.0),
        spec_uv(crate::csv::spec_project(t.1, true), 0, 0, Seq::empty()) == Seq::<int>::empty(),
        t.1.len() >= 1,
        t.1[0].len() >= 3,
        in_num_range(t.1[0][2].x.num * t.1[0][1].x.den),
        crate::rat::in_den_range(t.1[0][2].x.den * t.1[0][1].x.den),
        in_num_range(t.1[0][1].x.num * (t.1[0][2].x.den * t.1[0][1].x.den)),
        crate::rat::in_den_range(t.1[0][1].x.den * (t.1[0][2].x.den * t.1[0][1].x.den)),
        in_num_range(t.1[0][2].y.num * t.1[0][1].y.den),
        crate::rat::in_den_range(t.1[0][2].y.den * t.1[0][1].y.den),
        in_num_range(t.1[0][1].y.num * (t.1[0][2].y.den * t.1[0][1].y.den)),
        crate::rat::in_den_range(t.1[0][1].y.den * (t.1[0][2].y.den * t.1[0][1].y.den)),
    ensures
        spec_generate_equation(data) matches Ok(v) && v.len() == 4 && crate::rat::rat_eq(
            v[0],
            t.1[0][1].x,
        ) && crate::rat::rat_eq(v[1], t.1[0][2].x) && crate::rat::rat_eq(v[2], t.1[0][1].y)
            && crate::rat::rat_eq(v[3], t.1[0][2].y),
{
    let xs = crate::csv::spec_project(t.1, true);
    let ys = crate::csv::spec_project(t.1, false);
    let uv = spec_uv(xs, 0, 0, Seq::empty());
    assert(uv.len() == 0);
    assert(spec_matrix_dim(0, true) == 2);
    assert(spec_build(uv, 0, 2) == Some((Seq::<Seq<Rat>>::empty(), Seq::<Seq<Rat>>::empty())));
    let pos = seq![spec_first_pos_row(2)] + Seq::<Seq<Rat>>::empty();
    let vel = seq![spec_first_vel_row(2)] + Seq::<Seq<Rat>>::empty();
    assert(pos =~= seq![spec_first_pos_row(2)]);
    assert(vel =~= seq![spec_first_vel_row(2)]);
    assert(xs.len() == t.1.len() && ys.len() == t.1.len());
    assert(xs[0].len() == t.1[0].len() && ys[0].len() == t.1[0].len());
    assert(xs[0][1] == t.1[0][1].x && ys[0][1] == t.1[0][1].y);
    assert(xs[0][2] == t.1[0][2].x && ys[0][2] == t.1[0][2].y);
    assert(t.1[0][1].wf() && t.1[0][2].wf());
    lemma_trivial_solution_velocity(xs);
    lemma_trivial_solution_velocity(ys);
    let rx = crate::solve::spec_row_reduce(pos, vel, xs, true)->Ok_0.1;
    let ry = crate::solve::spec_row_reduce(pos, vel, ys, true)->Ok_0.1;
    assert(spec_generate_equation(data) == Ok::<Seq<Rat>, SplineError>(rx + ry));
    assert((rx + ry).len() == 4);
    assert((rx + ry)[0] == rx[0] && (rx + ry)[1] == rx[1]);
    assert((rx + ry)[2] == ry[0] && (rx + ry)[3] == ry[1]);
}

} // verus!
