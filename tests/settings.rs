use big_space::{FloatingOriginSettings, GridCell, SettingsError, Translation, WidePosition};

fn settings() -> FloatingOriginSettings {
    FloatingOriginSettings::new(10_000, 100).unwrap()
}

#[test]
fn new_computes_the_recentering_distance() {
    let s = settings();
    assert_eq!(s.grid_edge_length(), 10_000);
    assert_eq!(s.maximum_distance_from_origin(), 5_100);
    let odd = FloatingOriginSettings::new(11, 1).unwrap();
    assert_eq!(odd.maximum_distance_from_origin(), 6);
}

#[test]
fn default_settings() {
    let s = FloatingOriginSettings::default();
    assert_eq!(s.grid_edge_length(), 10_000);
    assert_eq!(s.maximum_distance_from_origin(), 5_100);
}

#[test]
fn new_rejects_a_non_positive_edge_length() {
    assert_eq!(FloatingOriginSettings::new(0, 100).unwrap_err(), SettingsError::NonPositiveEdgeLength);
    assert_eq!(FloatingOriginSettings::new(-5, 100).unwrap_err(), SettingsError::NonPositiveEdgeLength);
}

#[test]
fn new_rejects_a_non_positive_margin() {
    assert_eq!(
        FloatingOriginSettings::new(10_000, 0).unwrap_err(),
        SettingsError::NonPositiveSwitchingThreshold
    );
    assert_eq!(
        FloatingOriginSettings::new(10_000, -1).unwrap_err(),
        SettingsError::NonPositiveSwitchingThreshold
    );
}

#[test]
fn new_rejects_a_distance_beyond_64_bits() {
    assert_eq!(
        FloatingOriginSettings::new(i64::MAX, i64::MAX / 2 + 2).unwrap_err(),
        SettingsError::DistanceOutOfRange
    );
    let widest = FloatingOriginSettings::new(i64::MAX, i64::MAX / 2 + 1).unwrap();
    assert_eq!(widest.maximum_distance_from_origin(), i64::MAX);
}

#[test]
fn global_pos_double_adds_the_cell_offset() {
    let s = settings();
    let p = s.global_pos_double(&GridCell::new(1i32, -2, 3), &Translation::new(5, 6, 7));
    assert_eq!(p, WidePosition::new(10_005, -19_994, 30_007));
}

#[test]
fn global_pos_of_the_zero_cell_is_the_translation() {
    let s = settings();
    let t = Translation::new(-4_000, 12, i64::MIN);
    let p = s.global_pos_double(&GridCell::<i128>::zero(), &t);
    assert_eq!(p, t.as_wide());
    assert_eq!(s.global_pos_single(&GridCell::<i8>::zero(), &t), t);
}

#[test]
fn global_pos_double_saturates() {
    let s = settings();
    let p = s.global_pos_double(&GridCell::new(i128::MAX, i128::MIN, 0), &Translation::new(-5, 5, 0));
    assert_eq!(p, WidePosition::new(i128::MAX - 5, i128::MIN + 5, 0));
}

#[test]
fn global_pos_single_saturates_to_64_bits() {
    let s = settings();
    let t = s.global_pos_single(&GridCell::new(i64::MAX, i64::MIN, 2), &Translation::new(0, 0, 1));
    assert_eq!(t, Translation::new(i64::MAX, i64::MIN, 20_001));
}

#[test]
fn precise_translation_keeps_a_small_translation() {
    let s = settings();
    let v = WidePosition::new(5_099, -5_099, 0);
    let (cell, t) = s.precise_translation::<i64>(v);
    assert_eq!(cell, GridCell::zero());
    assert_eq!(t, Translation::new(5_099, -5_099, 0));
}

#[test]
fn precise_translation_rounds_halves_away_from_zero() {
    let s = settings();
    let (cell, t) = s.precise_translation::<i64>(WidePosition::new(15_000, 0, -15_000));
    assert_eq!(cell, GridCell::new(2, 0, -2));
    assert_eq!(t, Translation::new(-5_000, 0, 5_000));
}

#[test]
fn precise_translation_recenters_every_axis_at_once() {
    let s = settings();
    let (cell, t) = s.precise_translation::<i32>(WidePosition::new(5_100, 4_999, -26_000));
    assert_eq!(cell, GridCell::new(1, 0, -3));
    assert_eq!(t, Translation::new(-4_900, 4_999, 4_000));
}

#[test]
fn precise_translation_saturates_the_cell_delta() {
    let s = settings();
    let (cell, t) = s.precise_translation::<i8>(WidePosition::new(10_000_000, -10_000_000, 0));
    assert_eq!(cell, GridCell::new(i8::MAX, i8::MIN, 0));
    assert_eq!(t, Translation::new(0, 0, 0));
}

#[test]
fn precise_translation_handles_the_extremes() {
    let s = FloatingOriginSettings::new(1, 1).unwrap();
    let (cell, t) = s.precise_translation::<i128>(WidePosition::new(i128::MIN, i128::MAX, 0));
    assert_eq!(cell, GridCell::new(i128::MIN, i128::MAX, 0));
    assert_eq!(t, Translation::new(0, 0, 0));
}

#[test]
fn a_recentered_translation_is_not_recentered_again() {
    let s = settings();
    for v in [
        WidePosition::new(123_456_789, -987_654, 5_100),
        WidePosition::new(-5_100, 0, 0),
        WidePosition::new(15_000, -25_000, 35_000),
    ] {
        let (_, t) = s.precise_translation::<i64>(v);
        let (again, same) = s.precise_translation::<i64>(t.as_wide());
        assert_eq!(again, GridCell::zero());
        assert_eq!(same, t);
    }
}

#[test]
fn oscillating_across_the_boundary_recenters_once() {
    let s = settings();
    // An entity drifts just past the recentering distance and recenters.
    let (cell, t) = s.precise_translation::<i64>(WidePosition::new(5_101, 0, 0));
    assert_eq!(cell, GridCell::new(1, 0, 0));
    assert_eq!(t, Translation::new(-4_899, 0, 0));
    // Then it moves back and forth across the old boundary by 50 units.
    for step in [-50i64, 50, -50, 50] {
        let moved = Translation::new(t.x + step, 0, 0);
        let (delta, kept) = s.precise_translation::<i64>(moved.as_wide());
        assert_eq!(delta, GridCell::zero());
        assert_eq!(kept, moved);
    }
}
