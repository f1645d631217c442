use quojo_rust::phase::{normalize_phase, FULL_TURN};

const FULL: f64 = 4294967296.0;
const TAU: f64 = 2.0 * std::f64::consts::PI;

/// Radians to phase units (nearest representable value).
fn units(rad: f64) -> i64 {
    ((rad / TAU) * FULL).round() as i64
}

/// Phase units back to radians.
fn radians(u: u64) -> f64 {
    (u as f64) / FULL * TAU
}

#[test]
fn normalize_zero_is_zero() {
    assert_eq!(normalize_phase(0), 0);
}

#[test]
fn normalize_in_range_is_identity() {
    assert_eq!(normalize_phase(5), 5);
    assert_eq!(normalize_phase((FULL_TURN - 1) as i64), FULL_TURN - 1);
}

#[test]
fn normalize_wraps_full_turns() {
    assert_eq!(normalize_phase(FULL_TURN as i64), 0);
    assert_eq!(normalize_phase(FULL_TURN as i64 + 3), 3);
    assert_eq!(normalize_phase(3 * FULL_TURN as i64 + 7), 7);
}

#[test]
fn normalize_corrects_negative_values() {
    assert_eq!(normalize_phase(-1), FULL_TURN - 1);
    assert_eq!(normalize_phase(-(FULL_TURN as i64)), 0);
    assert_eq!(normalize_phase(-(FULL_TURN as i64) - 5), FULL_TURN - 5);
    assert_eq!(normalize_phase(i64::MIN), normalize_phase(i64::MIN));
}

#[test]
fn normalize_quarter_turns_are_exact() {
    // Multiples of pi are dyadic fractions of a turn, hence exact.
    assert_eq!(normalize_phase(units(std::f64::consts::PI)), FULL_TURN / 2);
    assert_eq!(normalize_phase(units(1.5 * std::f64::consts::PI)), 3 * (FULL_TURN / 4));
}

#[test]
fn normalize_negative_half_turn() {
    // -pi normalizes to +pi.
    let u = normalize_phase(units(-std::f64::consts::PI));
    assert_eq!(u, FULL_TURN / 2);
    assert!((radians(u) - std::f64::consts::PI).abs() < 1e-6);
}
