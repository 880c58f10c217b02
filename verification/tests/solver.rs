use splinegen::generate_list;
use splinegen::rat::Rat;
use splinegen::solve::{pivot, row_of_col, row_reduce};
use splinegen::SplineError;

fn rint(n: i64) -> Rat {
    Rat::from_i64(n)
}

fn row(vals: &[i64]) -> Vec<Rat> {
    let mut r = Vec::new();
    for v in vals {
        r.push(rint(*v));
    }
    r
}

#[test]
fn reduce_two_by_two() {
    // x0 = 1 at t=0, x0 + x1 = 3 at t=1, so x = [1, 2]
    let pos = vec![row(&[1, 0]), row(&[1, 1])];
    let vel = vec![row(&[0, 1])];
    let data = vec![row(&[0, 1]), row(&[1, 3])];
    let (generated, coeffs) = row_reduce(pos, vel, &data, false).unwrap();
    assert_eq!(generated.len(), 2);
    assert_eq!(generated[0], row(&[1, 0, 1]));
    assert_eq!(generated[1], row(&[1, 1, 3]));
    assert_eq!(coeffs.len(), 2);
    assert!(!coeffs[0].is_zero());
    assert_eq!(coeffs[0].num, coeffs[0].den);
    assert_eq!(coeffs[1].num, 2 * coeffs[1].den);
}

#[test]
fn duplicate_leading_columns_abort() {
    // both rows lead in the same column; elimination zeroes the second row
    // and the next pass finds no pivot
    let pos = vec![row(&[1, 1]), row(&[1, 1])];
    let vel = vec![row(&[0, 1])];
    let data = vec![row(&[0, 2]), row(&[0, 2])];
    let err = row_reduce(pos, vel, &data, false).unwrap_err();
    assert_eq!(err, SplineError::Solver);
}

#[test]
fn all_zero_row_aborts() {
    let pos = vec![row(&[0, 0]), row(&[1, 1])];
    let vel = vec![row(&[0, 1])];
    let data = vec![row(&[0, 0]), row(&[1, 2])];
    let err = row_reduce(pos, vel, &data, false).unwrap_err();
    assert_eq!(err, SplineError::Solver);
}

#[test]
fn pivot_reports_leading_nonzero() {
    let m = vec![row(&[0, 0, 5, 1]), row(&[0, 0, 0, 0])];
    assert_eq!(pivot(&m, 0), Ok(2));
    assert_eq!(pivot(&m, 1), Err(SplineError::Solver));
}

#[test]
fn row_of_col_scans_every_row() {
    let m = vec![row(&[0, 1, 7]), row(&[1, 0, 0])];
    assert_eq!(row_of_col(&m, 1), Ok(Some(0)));
    assert_eq!(row_of_col(&m, 0), Ok(Some(1)));
    assert_eq!(row_of_col(&m, 2), Ok(None));
}

#[test]
fn reorder_moves_pivot_rows_into_place() {
    // rows arrive with their pivots out of order; the reorder pass puts the
    // coefficient of power c at position c
    let pos = vec![row(&[0, 1]), row(&[1, 0])];
    let vel = vec![row(&[0, 1])];
    let data = vec![row(&[0, 7]), row(&[1, 9])];
    let (_generated, coeffs) = row_reduce(pos, vel, &data, false).unwrap();
    assert_eq!(coeffs, row(&[9, 7]));
}

#[test]
fn list_samples_linear_polynomial() {
    // constant term is never added: p(t) = 2t from [5, 2]
    let eq = vec![rint(5), rint(2)];
    let out = generate_list(&eq, rint(1), 3, 10).unwrap();
    assert_eq!(out.len(), 3);
    for (i, v) in out.iter().enumerate() {
        assert_eq!(v.num, 2 * (i as i64) * v.den);
    }
}

#[test]
fn list_respects_max_count() {
    let eq = vec![rint(0), rint(1)];
    let out = generate_list(&eq, rint(1), 100, 2).unwrap();
    assert_eq!(out.len(), 2);
}

#[test]
fn list_empty_when_stop_is_zero() {
    let eq = vec![rint(0), rint(1)];
    let out = generate_list(&eq, rint(1), 0, 10).unwrap();
    assert_eq!(out.len(), 0);
}

#[test]
fn list_fractional_step() {
    // p(t) = t at t = 0, 1/2, 1, 3/2: below 2, four samples
    let eq = vec![rint(0), rint(1)];
    let half = Rat { num: 1, den: 2 };
    let out = generate_list(&eq, half, 2, 10).unwrap();
    assert_eq!(out.len(), 4);
    let expect = [(0i64, 1i64), (1, 2), (1, 1), (3, 2)];
    for (v, (n, d)) in out.iter().zip(expect.iter()) {
        assert_eq!(v.num * d, n * v.den);
    }
}

#[test]
fn overflow_in_sampling_is_reported() {
    // the second sample needs i64::MAX * 2, which leaves the range
    let eq = vec![rint(0), Rat { num: i64::MAX, den: 1 }];
    let err = generate_list(&eq, rint(1), 3, 10).unwrap_err();
    assert_eq!(err, SplineError::Overflow);
}
