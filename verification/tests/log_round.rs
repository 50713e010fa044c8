use atlas_extract::log_round::half_steps_exec;

#[test]
fn half_steps_match_rounded_logs() {
    // round(20 * log10(x)) as half the digit count of x^40.
    for x in [1u128, 2, 9, 10, 11, 99, 100, 38_301, 545_839, 1_000_000_000_000] {
        let expected = (20.0 * (x as f64).log10()).round() as u64;
        assert_eq!(half_steps_exec(x, 40), expected, "x={x}");
    }
}

#[test]
fn half_steps_of_one_is_zero() {
    assert_eq!(half_steps_exec(1, 60), 0);
    assert_eq!(half_steps_exec(10, 2), 1);
}
