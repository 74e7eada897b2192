use roundabout_sim::common::{unwrap_theta, TAU};

#[test]
fn polar_pi() {
    // Three quarters of a turn backward, folded into the canonical range.
    let p = unwrap_theta(-(0.75 * std::f64::consts::PI * 1e6) as i64);
    assert!(p < TAU, "should stay in the canonical angle range");
    assert_eq!(p, TAU - 2_356_194);
    // Nine tenths of a turn forward is already canonical.
    let p = unwrap_theta((2.0 * std::f64::consts::PI * 0.9 * 1e6) as i64);
    assert!(p < TAU, "should stay in the canonical angle range");
    assert_eq!(p, 5_654_866);
}
