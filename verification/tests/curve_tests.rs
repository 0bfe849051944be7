use bezier::curve::{calculate_recursive_bezier, sample, sampling_fits, InvalidInput, SamplePoint};

fn value_of(p: &SamplePoint) -> f64 {
    p.value_num as f64 / p.value_den as f64
}

fn t_of(p: &SamplePoint) -> f64 {
    p.t_num as f64 / p.t_den as f64
}

#[test]
fn quadratic_symmetric_scenario() {
    // A quadratic curve over [0, 4, 0] sampled three times peaks at t = 0.5.
    let points = vec![0i64, 4, 0];
    let s = sample(&points, 3).unwrap();
    assert_eq!(s.len(), 3);
    assert_eq!((s[0].t_num, s[0].t_den), (0, 2));
    assert_eq!((s[1].t_num, s[1].t_den), (1, 2));
    assert_eq!((s[2].t_num, s[2].t_den), (2, 2));
    assert_eq!((s[0].value_num, s[0].value_den), (0, 4));
    assert_eq!((s[1].value_num, s[1].value_den), (8, 4));
    assert_eq!((s[2].value_num, s[2].value_den), (0, 4));
    assert_eq!(t_of(&s[0]), 0.0);
    assert_eq!(value_of(&s[0]), 0.0);
    assert_eq!(t_of(&s[1]), 0.5);
    assert_eq!(value_of(&s[1]), 2.0);
    assert_eq!(t_of(&s[2]), 1.0);
    assert_eq!(value_of(&s[2]), 0.0);
}

#[test]
fn endpoints_are_exact() {
    // The first sample sits at t = 0 and the last at t = 1, exactly.
    let points = vec![3i64, -5, 7, 11];
    let s = sample(&points, 5).unwrap();
    assert_eq!(s.len(), 5);
    assert_eq!(s[0].t_num, 0);
    assert_eq!(s[4].t_num, s[4].t_den);
    assert_eq!(t_of(&s[0]), 0.0);
    assert_eq!(t_of(&s[4]), 1.0);
}

#[test]
fn endpoint_values_are_the_outer_control_points() {
    // A Bézier curve passes through its first and last control points.
    let points = vec![3i64, -5, 7, 11];
    let s = sample(&points, 5).unwrap();
    // degree 3, denominator (5 - 1)^3 = 64
    assert_eq!((s[0].value_num, s[0].value_den), (3 * 64, 64));
    assert_eq!((s[4].value_num, s[4].value_den), (11 * 64, 64));
    assert_eq!(value_of(&s[0]), 3.0);
    assert_eq!(value_of(&s[4]), 11.0);
}

#[test]
fn linear_case_is_straight_interpolation() {
    // With two control points [a, b] the curve is a*(1-t) + b*t.
    let points = vec![0i64, 10];
    let mid = calculate_recursive_bezier(&points, 1, 2).unwrap();
    // numerator over denominator 2^1
    assert_eq!(mid, 10);
    assert_eq!(mid as f64 / 2.0, 5.0);
    let quarter = calculate_recursive_bezier(&points, 1, 4).unwrap();
    assert_eq!(quarter, 10);
    assert_eq!(quarter as f64 / 4.0, 2.5);
    let general = calculate_recursive_bezier(&vec![6i64, 18], 2, 6).unwrap();
    // 6*(6-2) + 18*2 = 60 over 6: value 10 at t = 1/3
    assert_eq!(general, 60);
    assert_eq!(general as f64 / 6.0, 10.0);
}

#[test]
fn sample_count_is_honoured() {
    let points = vec![0i64, 1];
    assert_eq!(sample(&points, 2).unwrap().len(), 2);
    assert_eq!(sample(&points, 7).unwrap().len(), 7);
    assert_eq!(sample(&points, 100).unwrap().len(), 100);
}

#[test]
fn validation_rejects_bad_inputs() {
    assert_eq!(sample(&vec![1i64], 10), Err(InvalidInput::TooFewControlPoints));
    assert_eq!(sample(&vec![0i64, 1], 1), Err(InvalidInput::SampleCountTooSmall));
    assert_eq!(sample(&vec![0i64, 1], 0), Err(InvalidInput::SampleCountTooSmall));
    assert_eq!(sample(&vec![], 10), Err(InvalidInput::TooFewControlPoints));
    assert_eq!(
        calculate_recursive_bezier(&vec![], 0, 1),
        Err(InvalidInput::NoControlPoints)
    );
}

#[test]
fn sampling_is_deterministic() {
    let points = vec![2i64, -9, 4, 4, -1];
    let first = sample(&points, 33);
    let second = sample(&points, 33);
    assert_eq!(first, second);
}

#[test]
fn evaluator_handles_a_single_control_point() {
    // Degree zero: the curve is constant, whatever the parameter.
    let points = vec![7i64];
    assert_eq!(calculate_recursive_bezier(&points, 0, 1), Ok(7));
    assert_eq!(calculate_recursive_bezier(&points, 5, 9), Ok(7));
}

#[test]
fn parameters_outside_the_unit_interval_extrapolate() {
    let points = vec![0i64, 10];
    // t = 3/2 extrapolates past the last control point: 0*(2-3) + 10*3 = 30 over 2.
    assert_eq!(calculate_recursive_bezier(&points, 3, 2), Ok(30));
    // t = -1/2 extrapolates before the first: 0*(2+1) + 10*(-1) = -10 over 2.
    assert_eq!(calculate_recursive_bezier(&points, -1, 2), Ok(-10));
}

#[test]
fn error_messages_name_the_constraint() {
    assert_eq!(
        InvalidInput::TooFewControlPoints.message(),
        "at least two control points are required"
    );
    assert_eq!(
        InvalidInput::SampleCountTooSmall.message(),
        "sample count must be at least 2"
    );
    assert_eq!(
        InvalidInput::NoControlPoints.message(),
        "control points must not be empty"
    );
}

#[test]
fn head_room_check_matches_reality() {
    assert!(sampling_fits(&vec![0i64, 4, 0], 3));
    assert!(sampling_fits(&vec![0i64, 1], 100));
    // 64 points force degree 63; with a parameter denominator of 999 the
    // bound grows past what i128 can hold.
    let big = vec![1i64; 64];
    assert!(!sampling_fits(&big, 1000));
    // Degree 63 still fits when the denominator is 1 (two samples).
    assert!(sampling_fits(&big, 2));
}

#[test]
fn cubic_midpoint_matches_the_closed_form() {
    // [0, 0, 0, 8] at t = 1/2: sum C(3,i) (1-t)^(3-i) t^i p_i = 8/8 = 1.
    let points = vec![0i64, 0, 0, 8];
    let v = calculate_recursive_bezier(&points, 1, 2).unwrap();
    assert_eq!(v, 8);
    assert_eq!(v as f64 / 8.0, 1.0);
}
