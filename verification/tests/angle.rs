use voxel_world::angle::normalize_degrees;

#[test]
fn three_quarters_of_a_turn_is_a_quarter_back() {
    assert_eq!(normalize_degrees(270, false), -90);
}

#[test]
fn minus_two_hundred_is_one_hundred_and_sixty() {
    assert_eq!(normalize_degrees(-200, false), 160);
}

#[test]
fn angles_within_a_half_turn_stay() {
    for whole in -180..=180 {
        assert_eq!(normalize_degrees(whole, false), whole);
    }
    for whole in -180..180 {
        assert_eq!(normalize_degrees(whole, true), whole);
    }
}

#[test]
fn angles_just_past_a_half_turn_wrap() {
    assert_eq!(normalize_degrees(181, false), -179);
    assert_eq!(normalize_degrees(-181, false), 179);
    // 180.5 degrees becomes -179.5 degrees: whole part -180.
    assert_eq!(normalize_degrees(180, true), -180);
    // -180.5 degrees, whole part -181, becomes 179.5 degrees.
    assert_eq!(normalize_degrees(-181, true), 179);
}

#[test]
fn whole_turns_drop_out() {
    assert_eq!(normalize_degrees(360, false), 0);
    assert_eq!(normalize_degrees(-360, false), 0);
    assert_eq!(normalize_degrees(720, true), 0);
    assert_eq!(normalize_degrees(540, false), 180);
    assert_eq!(normalize_degrees(-540, false), 180);
    assert_eq!(normalize_degrees(3600 + 45, false), 45);
    assert_eq!(normalize_degrees(-3600 - 45, true), -45);
}

#[test]
fn normalizing_twice_is_normalizing_once() {
    for whole in -2000..2000 {
        for fractional in [false, true] {
            let once = normalize_degrees(whole, fractional);
            assert_eq!(normalize_degrees(once, fractional), once);
            assert!((-180..=180).contains(&once));
            assert_eq!((whole - once).rem_euclid(360), 0);
        }
    }
}

#[test]
fn the_largest_integers_normalize_without_overflow() {
    let top = normalize_degrees(i64::MAX, true);
    assert_eq!((i64::MAX as i128 - top as i128).rem_euclid(360), 0);
    assert!((-180..180).contains(&top));
    let bottom = normalize_degrees(i64::MIN, false);
    assert_eq!((i64::MIN as i128 - bottom as i128).rem_euclid(360), 0);
    assert!((-179..=180).contains(&bottom));
}

#[test]
fn a_normalized_angle_comes_back_as_it_went_in() {
    for whole in [-180i64, -179, -90, -1, 0, 1, 90, 179, 180] {
        assert_eq!(normalize_degrees(whole, false), whole);
        let once = normalize_degrees(whole + 720, false);
        assert_eq!(normalize_degrees(once, false), once);
    }
}
