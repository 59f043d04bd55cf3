use simulation::fixed::{
    from_int, from_ratio, fx_abs, fx_add, fx_div, fx_max, fx_min, fx_mul, fx_neg, fx_sqrt,
    fx_sub, lerp, LIMIT, ONE,
};
use simulation::trig::{atan2, sin_cos, wrap_angle, HALF_PI, PI, QUARTER_PI, TAU};
use simulation::Vec3;

#[test]
fn quantities_count_millionths() {
    assert_eq!(from_int(3), 3_000_000);
    assert_eq!(from_int(-2), -2_000_000);
    assert_eq!(from_ratio(7, 10), 700_000);
    assert_eq!(from_ratio(-1, 3), -333_333);
    assert_eq!(from_ratio(1, 3), 333_333);
}

#[test]
fn products_and_quotients_round_toward_zero() {
    assert_eq!(fx_mul(from_ratio(3, 2), from_int(4)), from_int(6));
    assert_eq!(fx_mul(333_333, from_int(3)), 999_999);
    assert_eq!(fx_mul(-333_333, 500_000), -166_666);
    assert_eq!(fx_div(from_int(1), from_int(3)), 333_333);
    assert_eq!(fx_div(from_int(-1), from_int(3)), -333_333);
    assert_eq!(fx_div(from_int(7), from_int(-2)), -3_500_000);
}

#[test]
fn division_by_zero_saturates() {
    assert_eq!(fx_div(from_int(1), 0), LIMIT);
    assert_eq!(fx_div(from_int(-1), 0), -LIMIT);
    assert_eq!(fx_div(0, 0), 0);
}

#[test]
fn results_out_of_range_saturate() {
    assert_eq!(fx_add(LIMIT, 1), LIMIT);
    assert_eq!(fx_sub(-LIMIT, 1), -LIMIT);
    assert_eq!(fx_mul(LIMIT, from_int(2)), LIMIT);
    assert_eq!(fx_mul(LIMIT, from_int(-2)), -LIMIT);
    assert_eq!(fx_neg(i64::MIN), LIMIT);
    assert_eq!(fx_abs(i64::MIN), LIMIT);
    assert_eq!(from_int(i64::MAX), LIMIT);
}

#[test]
fn square_roots_round_down() {
    assert_eq!(fx_sqrt(from_int(25)), from_int(5));
    assert_eq!(fx_sqrt(from_int(2)), 1_414_213);
    assert_eq!(fx_sqrt(0), 0);
    assert_eq!(fx_sqrt(from_int(-4)), 0);
    assert_eq!(fx_sqrt(1), 1_000);
}

#[test]
fn smaller_larger_and_between() {
    assert_eq!(fx_min(3, -4), -4);
    assert_eq!(fx_max(3, -4), 3);
    assert_eq!(fx_abs(-5), 5);
    assert_eq!(lerp(from_int(4), from_int(6), ONE / 2), from_int(5));
    assert_eq!(lerp(from_int(4), from_int(6), 0), from_int(4));
    assert_eq!(lerp(from_int(4), from_int(6), ONE), from_int(6));
}

#[test]
fn angles_on_the_axes_are_exact() {
    assert_eq!(atan2(0, from_int(5)), 0);
    assert_eq!(atan2(from_int(5), 0), HALF_PI);
    assert_eq!(atan2(0, from_int(-5)), PI);
    assert_eq!(atan2(from_int(-5), 0), -HALF_PI);
    assert_eq!(atan2(from_int(3), from_int(3)), QUARTER_PI);
    assert_eq!(atan2(0, 0), 0);
}

#[test]
fn angles_between_the_axes_are_close() {
    // atan2(1, 2) = 0.4636476, atan2(2, 1) = 1.1071487, atan2(1, -1) = 3π/4.
    assert!((atan2(from_int(1), from_int(2)) - 463_648).abs() <= 3);
    assert!((atan2(from_int(2), from_int(1)) - 1_107_149).abs() <= 3);
    assert!((atan2(from_int(1), from_int(-1)) - 2_356_194).abs() <= 3);
    assert!((atan2(from_int(-1), from_int(-1)) + 2_356_194).abs() <= 3);
    // tan(π/8) is where the series changes: atan is π/8 on both sides.
    assert!((atan2(414_214, ONE) - 392_699).abs() <= 3);
    assert!((atan2(414_215, ONE) - 392_699).abs() <= 3);
}

#[test]
fn sines_and_cosines_are_close() {
    let cases: [(i64, i64, i64); 7] = [
        (0, 0, ONE),
        (HALF_PI, ONE, 0),
        (PI, 0, -ONE),
        (-HALF_PI, -ONE, 0),
        (QUARTER_PI, 707_107, 707_107),
        (from_int(1), 841_471, 540_302),
        (from_int(-2), -909_297, -416_147),
    ];
    for (angle, sine, cosine) in cases {
        let (s, c) = sin_cos(angle);
        assert!((s - sine).abs() <= 5, "sin({angle}) = {s}");
        assert!((c - cosine).abs() <= 5, "cos({angle}) = {c}");
    }
}

#[test]
fn whole_turns_do_not_change_an_angle() {
    assert_eq!(wrap_angle(TAU + 5), 5);
    assert_eq!(wrap_angle(-TAU - 5), -5);
    assert_eq!(wrap_angle(PI), PI);
    assert_eq!(wrap_angle(PI + 1), PI + 1 - TAU);
    assert_eq!(sin_cos(TAU + QUARTER_PI), sin_cos(QUARTER_PI));
}

#[test]
fn vectors_add_scale_and_measure() {
    let a = Vec3::from_units(3, 4, 0);
    let b = Vec3::from_units(1, -1, 2);
    assert_eq!(a.plus(b), Vec3::from_units(4, 3, 2));
    assert_eq!(a.minus(b), Vec3::from_units(2, 5, -2));
    assert_eq!(a.scaled(from_int(2)), Vec3::from_units(6, 8, 0));
    assert_eq!(a.dot(b), from_int(-1));
    assert_eq!(a.length(), from_int(5));
    assert_eq!(a.distance(Vec3::zero()), from_int(5));
    assert_eq!(a.normalized(), Vec3::new(600_000, 800_000, 0));
    assert_eq!(a.lerp(b, ONE / 2), Vec3::new(2_000_000, 1_500_000, 1_000_000));
}

#[test]
fn the_cross_product_tells_the_side() {
    let east = Vec3::from_units(1, 0, 0);
    let north = Vec3::from_units(0, 1, 0);
    assert_eq!(east.cross_z(north), ONE);
    assert_eq!(north.cross_z(east), -ONE);
    assert_eq!(east.cross(north), Vec3::from_units(0, 0, 1));
    // A vehicle heading east has the south to its right.
    assert_eq!(east.right(), Vec3::from_units(0, -1, 0));
    assert_eq!(north.right(), east);
}

#[test]
fn a_vector_without_length_has_no_direction() {
    assert_eq!(Vec3::zero().normalized(), Vec3::zero());
    assert_eq!(Vec3::zero().length(), 0);
}
