use curve_fit_nd::api::{
    calc_flag_is_cyclic, calc_flag_is_high_quality, fit_input_valid, input_error_status,
    single_fit_status, TraceMode, CURVE_FIT_CALC_CYCLIC, CURVE_FIT_CALC_HIGH_QUALITY,
};

#[test]
fn calc_flags_decode() {
    assert_eq!(CURVE_FIT_CALC_HIGH_QUALITY, 1);
    assert_eq!(CURVE_FIT_CALC_CYCLIC, 2);
    assert!(calc_flag_is_cyclic(2));
    assert!(calc_flag_is_cyclic(3));
    assert!(!calc_flag_is_cyclic(1));
    assert!(calc_flag_is_high_quality(1));
    assert!(!calc_flag_is_high_quality(2));
    assert!(calc_flag_is_high_quality(7));
}

#[test]
fn input_validation() {
    assert!(fit_input_valid(2, 2));
    assert!(!fit_input_valid(1, 2));
    assert!(!fit_input_valid(5, 1));
    assert_eq!(input_error_status(), -1);
}

#[test]
fn single_status_codes() {
    assert_eq!(single_fit_status(true), 0);
    assert_eq!(single_fit_status(false), 1);
}

#[test]
fn trace_mode_equality() {
    assert!(TraceMode::Outline == TraceMode::Outline);
    assert!(TraceMode::Outline != TraceMode::Centerline);
}
