use splinegen::generate_equation;
use splinegen::rat::Rat;
use splinegen::SplineError;

fn run(text: &str) -> Result<Vec<Rat>, SplineError> {
    let bytes = text.as_bytes().to_vec();
    generate_equation(&bytes)
}

fn approx(r: &Rat) -> f64 {
    r.num as f64 / r.den as f64
}

#[test]
fn end_to_end_identity_line() {
    // header `t,"pos"`, rows `0,"(0,0)"` then `1,"(1,1)"`: control point u=1,
    // no velocity column; each axis solves to constant 0, linear 1.
    let out = run("t,\"pos\"\n0,\"(0,0)\"\n1,\"(1,1)\"").unwrap();
    assert_eq!(out.len(), 4);
    assert!((approx(&out[0]) - 0.0).abs() < 1e-12);
    assert!((approx(&out[1]) - 1.0).abs() < 1e-12);
    assert!((approx(&out[2]) - 0.0).abs() < 1e-12);
    assert!((approx(&out[3]) - 1.0).abs() < 1e-12);
}

#[test]
fn round_trip_known_quadratic() {
    // points sampled exactly from y = 1 + 2t + 3t^2 at t = 0, 1, 2
    let out = run("t,\"pos\"\n0,\"(1,1)\"\n1,\"(6,6)\"\n2,\"(17,17)\"").unwrap();
    assert_eq!(out.len(), 6);
    let expect = [1.0, 2.0, 3.0, 1.0, 2.0, 3.0];
    for (i, e) in expect.iter().enumerate() {
        assert!((approx(&out[i]) - e).abs() < 1e-4);
    }
}

#[test]
fn idempotent_identical_input() {
    let text = "t,\"pos\"\n0,\"(1,1)\"\n1,\"(6,6)\"\n2,\"(17,17)\"";
    let a = run(text).unwrap();
    let b = run(text).unwrap();
    assert_eq!(a.len(), b.len());
    for i in 0..a.len() {
        assert_eq!(a[i].num, b[i].num);
        assert_eq!(a[i].den, b[i].den);
    }
}

#[test]
fn boundary_zero_control_points() {
    // the only first-column value is 0, so no control point qualifies; the
    // trivial one-term solution per axis is the first sample itself
    let out = run("t,\"pos\"\n0,\"(5,7)\"").unwrap();
    assert_eq!(out.len(), 2);
    assert!((approx(&out[0]) - 5.0).abs() < 1e-12);
    assert!((approx(&out[1]) - 7.0).abs() < 1e-12);
}

#[test]
fn boundary_negative_control_points() {
    let out = run("t,\"pos\"\n-1,\"(5,7)\"").unwrap();
    assert_eq!(out.len(), 2);
    assert!((approx(&out[0]) - 5.0).abs() < 1e-12);
    assert!((approx(&out[1]) - 7.0).abs() < 1e-12);
}

#[test]
fn boundary_zero_control_points_with_velocity() {
    // no qualifying control point on the velocity path: two terms per axis,
    // the first row's position and velocity samples
    let out = run("t,\"pos\",velocity\n0,\"(5,7)\",\"(2,3)\"").unwrap();
    assert_eq!(out.len(), 4);
    assert!((approx(&out[0]) - 5.0).abs() < 1e-12);
    assert!((approx(&out[1]) - 2.0).abs() < 1e-12);
    assert!((approx(&out[2]) - 7.0).abs() < 1e-12);
    assert!((approx(&out[3]) - 3.0).abs() < 1e-12);
}

#[test]
fn boundary_empty_input() {
    // no lines at all: the always-true constraint alone survives
    let out = run("").unwrap();
    assert_eq!(out.len(), 2);
}

#[test]
fn velocity_doubles_output_width() {
    let plain = run("t,\"pos\",other\n0,\"(0,0)\",\"(0,0)\"\n1,\"(1,1)\",\"(3,3)\"").unwrap();
    let vel = run("t,\"pos\",velocity\n0,\"(0,0)\",\"(0,0)\"\n1,\"(1,1)\",\"(3,3)\"").unwrap();
    // one control point: 2 coefficients per axis without velocity, 4 with
    assert_eq!(plain.len(), 4);
    assert_eq!(vel.len(), 8);
}

#[test]
fn velocity_rhs_sources_are_distinct() {
    // p(t) = t^3 has p(0)=0, p'(0)=0, p(1)=1, p'(1)=3: the third components
    // (velocities) differ from the second (positions) and must be used
    let out = run("t,\"pos\",velocity\n0,\"(0,0)\",\"(0,0)\"\n1,\"(1,1)\",\"(3,3)\"").unwrap();
    assert_eq!(out.len(), 8);
    let expect = [0.0, 0.0, 0.0, 1.0];
    for axis in 0..2 {
        for (i, e) in expect.iter().enumerate() {
            assert!((approx(&out[axis * 4 + i]) - e).abs() < 1e-4);
        }
    }
}

#[test]
fn longer_row_resets_control_points() {
    // a strictly longer row found mid-scan discards the points gathered so
    // far: only u=2 survives, so each axis has two coefficients, and the
    // system solves to constant 5, linear 1
    let out = run("t,\"a\"\n1,\"(5,5)\"\n2,\"(7,7)\",\"(9,9)\"").unwrap();
    assert_eq!(out.len(), 4);
    assert!((approx(&out[0]) - 5.0).abs() < 1e-12);
    assert!((approx(&out[1]) - 1.0).abs() < 1e-12);
    assert!((approx(&out[2]) - 5.0).abs() < 1e-12);
    assert!((approx(&out[3]) - 1.0).abs() < 1e-12);
}

#[test]
fn pivot_failure_is_solver_error() {
    // two identical control points give two identical constraint rows: the
    // second becomes all-zero during elimination and has no pivot
    let err = run("t,\"pos\"\n1,\"(1,1)\"\n1,\"(1,1)\"").unwrap_err();
    assert_eq!(err, SplineError::Solver);
}

#[test]
fn malformed_number_is_parse_error() {
    let err = run("t\nx").unwrap_err();
    assert_eq!(err, SplineError::Parse);
}

#[test]
fn wrong_arity_pair_is_parse_error() {
    assert_eq!(run("t,\"p\"\n1,\"(1,2,3)\"").unwrap_err(), SplineError::Parse);
    assert_eq!(run("t,\"p\"\n1,\"(1)\"").unwrap_err(), SplineError::Parse);
}

#[test]
fn empty_cell_is_parse_error() {
    assert_eq!(run("t,\"a\",\"b\"\n1,,\"(1,2)\"").unwrap_err(), SplineError::Parse);
}

#[test]
fn huge_number_is_overflow() {
    let err = run("t\n99999999999999999999").unwrap_err();
    assert_eq!(err, SplineError::Overflow);
}
