use simulation::fixed::{from_int, from_ratio, ONE};
use simulation::geometry::{angle_about, sweep};
use simulation::trig::{HALF_PI, PI, TAU};
use simulation::{SegmentGeometry, Vec3};

fn close(a: Vec3, b: Vec3, tolerance: i64) -> bool {
    (a.x - b.x).abs() <= tolerance && (a.y - b.y).abs() <= tolerance && (a.z - b.z).abs() <= tolerance
}

#[test]
fn a_path_starts_at_its_first_end_and_stops_at_its_second() {
    let from = Vec3::new(1_250_000, -3_000_001, 7);
    let to = Vec3::new(-9_000_000, 4_400_000, 11);
    let shapes = [
        SegmentGeometry::Straight,
        SegmentGeometry::Curved { center: Vec3::from_units(1, 1, 0), radius: from_int(5), clockwise: true },
        SegmentGeometry::Curved { center: Vec3::from_units(1, 1, 0), radius: from_int(5), clockwise: false },
    ];
    for shape in shapes {
        assert_eq!(shape.position_at(from, to, 0), from);
        assert_eq!(shape.position_at(from, to, ONE), to);
        assert_eq!(shape.position_at(from, to, -5), from);
        assert_eq!(shape.position_at(from, to, ONE + 5), to);
    }
}

#[test]
fn a_straight_segment_is_as_long_as_its_ends_are_apart() {
    let shape = SegmentGeometry::Straight;
    assert_eq!(shape.length(Vec3::from_units(0, 0, 0), Vec3::from_units(10, 0, 0)), from_int(10));
    assert_eq!(shape.length(Vec3::from_units(1, 2, 0), Vec3::from_units(4, 6, 0)), from_int(5));
    assert_eq!(shape.length(Vec3::from_units(4, 6, 0), Vec3::from_units(1, 2, 0)), from_int(5));
    assert_eq!(shape.length(Vec3::from_units(2, 2, 2), Vec3::from_units(2, 2, 2)), 0);
}

#[test]
fn a_straight_segment_is_walked_evenly() {
    let shape = SegmentGeometry::Straight;
    let from = Vec3::from_units(0, 0, 0);
    let to = Vec3::from_units(10, -20, 0);
    assert_eq!(shape.position_at(from, to, ONE / 2), Vec3::from_units(5, -10, 0));
    assert_eq!(shape.position_at(from, to, from_ratio(1, 10)), Vec3::from_units(1, -2, 0));
    assert_eq!(
        shape.direction_at(Vec3::from_units(0, 0, 0), Vec3::from_units(0, 7, 0), ONE / 3),
        Vec3::from_units(0, 1, 0)
    );
}

#[test]
fn arc_length_is_radius_times_angle() {
    // A quarter of a circle of radius 5, counter-clockwise: 5 · π/2 = 7.853981.
    let shape = SegmentGeometry::Curved {
        center: Vec3::from_units(0, 0, 0),
        radius: from_int(5),
        clockwise: false,
    };
    let from = Vec3::from_units(5, 0, 0);
    let to = Vec3::from_units(0, 5, 0);
    let length = shape.length(from, to);
    assert_eq!(length, 5 * HALF_PI);
    assert!((length - 7_853_982).abs() <= 5);

    // Half way along the arc: (5 cos π/4, 5 sin π/4, 0).
    let middle = shape.position_at(from, to, ONE / 2);
    assert!(close(middle, Vec3::new(3_535_534, 3_535_534, 0), 30));
}

#[test]
fn the_sense_of_rotation_decides_which_way_round() {
    let center = Vec3::from_units(0, 0, 0);
    let from = Vec3::from_units(5, 0, 0);
    let to = Vec3::from_units(0, 5, 0);
    // Clockwise from east to north is three quarters of the circle.
    let long_way = SegmentGeometry::Curved { center, radius: from_int(5), clockwise: true };
    assert_eq!(long_way.length(from, to), 5 * (TAU - HALF_PI));
    let middle = long_way.position_at(from, to, ONE / 3);
    // A third of the way is a quarter of the circle back: the south.
    assert!(close(middle, Vec3::from_units(0, -5, 0), 30));
    // Clockwise from north to east is a quarter.
    assert_eq!(long_way.length(to, from), 5 * HALF_PI);
}

#[test]
fn swept_angles_have_the_sign_of_the_rotation() {
    assert_eq!(sweep(0, HALF_PI, false), HALF_PI);
    assert_eq!(sweep(0, HALF_PI, true), HALF_PI - TAU);
    assert_eq!(sweep(HALF_PI, 0, false), TAU - HALF_PI);
    assert_eq!(sweep(HALF_PI, 0, true), -HALF_PI);
    assert_eq!(sweep(PI, -PI, false), 0);
    assert_eq!(sweep(-PI, PI, true), 0);
    assert_eq!(sweep(0, 0, true), 0);
    assert_eq!(angle_about(Vec3::from_units(1, 1, 0), Vec3::from_units(1, 4, 0)), HALF_PI);
}

#[test]
fn the_direction_on_an_arc_is_its_tangent() {
    let center = Vec3::from_units(0, 0, 0);
    let from = Vec3::from_units(5, 0, 0);
    let to = Vec3::from_units(0, 5, 0);
    let left_turn = SegmentGeometry::Curved { center, radius: from_int(5), clockwise: false };
    // Counter-clockwise at the east of the circle, traffic heads north.
    assert_eq!(left_turn.direction_at(from, to, 0), Vec3::from_units(0, 1, 0));
    // At the north it heads west.
    assert_eq!(left_turn.direction_at(from, to, ONE), Vec3::from_units(-1, 0, 0));
    let right_turn = SegmentGeometry::Curved { center, radius: from_int(5), clockwise: true };
    // Clockwise at the north of the circle, traffic heads east.
    assert_eq!(right_turn.direction_at(to, from, 0), Vec3::from_units(1, 0, 0));
    let middle = left_turn.direction_at(from, to, ONE / 2);
    assert!(close(middle, Vec3::new(-707_107, 707_107, 0), 30));
}

#[test]
fn an_arc_keeps_the_height_of_its_start() {
    let shape = SegmentGeometry::Curved {
        center: Vec3::from_units(0, 0, 0),
        radius: from_int(5),
        clockwise: false,
    };
    let from = Vec3::from_units(5, 0, 3);
    let to = Vec3::from_units(0, 5, 9);
    assert_eq!(shape.position_at(from, to, ONE / 2).z, from_int(3));
}
