use simulation::driver::blinker::Blinker;
use simulation::driver::yielding::{TurnType, YieldResolver, NO_ARRIVAL};
use simulation::fixed::{from_int, from_ratio, ONE};
use simulation::Vec3;

// Directions: where the vehicle is heading, into the intersection.
fn up() -> Vec3 {
    Vec3::from_units(0, 1, 0)
}

fn down() -> Vec3 {
    Vec3::from_units(0, -1, 0)
}

fn right() -> Vec3 {
    Vec3::from_units(1, 0, 0)
}

fn left() -> Vec3 {
    Vec3::from_units(-1, 0, 0)
}

// Orders of arrival that stand for two vehicles.
const FIRST: u64 = 1;
const SECOND: u64 = 2;

#[test]
fn test_yield_to_right_both_straight() {
    let resolver = YieldResolver::RightOfWay;

    // Heading south, coming from the north; heading west, coming from the
    // east. Seen from the north, the east is to the left: north goes first.
    assert!(resolver.has_priority(
        TurnType::Straight,
        down(),
        FIRST,
        0,
        TurnType::Straight,
        left(),
        SECOND,
        0,
    ));

    // Seen from the east, the north is to the right: east yields.
    assert!(!resolver.has_priority(
        TurnType::Straight,
        left(),
        FIRST,
        0,
        TurnType::Straight,
        down(),
        SECOND,
        0,
    ));
}

#[test]
fn test_yield_to_right_overrides_turn_type() {
    let resolver = YieldResolver::RightOfWay;

    // North goes before east even though the vehicle from the east turns.
    assert!(resolver.has_priority(
        TurnType::Straight,
        down(),
        FIRST,
        0,
        TurnType::Right(from_ratio(-7, 10)),
        left(),
        SECOND,
        0,
    ));
}

#[test]
fn test_opposing_directions_right_turn_beats_straight() {
    let resolver = YieldResolver::RightOfWay;

    // Opposing traffic: neither is to the side of the other, and the right
    // turn is the shorter way across.
    assert!(resolver.has_priority(
        TurnType::Right(from_ratio(-7, 10)),
        down(),
        FIRST,
        0,
        TurnType::Straight,
        up(),
        SECOND,
        0,
    ));

    assert!(!resolver.has_priority(
        TurnType::Straight,
        up(),
        FIRST,
        0,
        TurnType::Right(from_ratio(-7, 10)),
        down(),
        SECOND,
        0,
    ));
}

#[test]
fn test_opposing_directions_right_turn_beats_left_turn() {
    let resolver = YieldResolver::RightOfWay;

    assert!(resolver.has_priority(
        TurnType::Right(from_ratio(-7, 10)),
        down(),
        FIRST,
        0,
        TurnType::Left(from_ratio(7, 10)),
        up(),
        SECOND,
        0,
    ));

    assert!(!resolver.has_priority(
        TurnType::Left(from_ratio(7, 10)),
        up(),
        FIRST,
        0,
        TurnType::Right(from_ratio(-7, 10)),
        down(),
        SECOND,
        0,
    ));
}

#[test]
fn test_entity_tiebreaker() {
    let resolver = YieldResolver::RightOfWay;

    // All else equal, the one that arrived first goes first.
    assert!(resolver.has_priority(
        TurnType::Straight,
        down(),
        FIRST,
        0,
        TurnType::Straight,
        down(),
        SECOND,
        0,
    ));

    assert!(!resolver.has_priority(
        TurnType::Straight,
        down(),
        SECOND,
        0,
        TurnType::Straight,
        down(),
        FIRST,
        0,
    ));
}

#[test]
fn test_deadlock_breaks_with_entity_id() {
    let resolver = YieldResolver::RightOfWay;

    // East would yield to north. But where both have waited for more than
    // half a second, the one that arrived first goes.
    assert!(resolver.has_priority(
        TurnType::Straight,
        left(),
        FIRST,
        from_int(1),
        TurnType::Straight,
        down(),
        SECOND,
        from_int(1),
    ));

    assert!(!resolver.has_priority(
        TurnType::Straight,
        left(),
        SECOND,
        from_int(1),
        TurnType::Straight,
        down(),
        FIRST,
        from_int(1),
    ));
}

#[test]
fn test_yield_to_right_from_positions() {
    // Headings as the expansion of a junction computes them: from where the
    // road comes to the centre, at unit length.
    let resolver = YieldResolver::RightOfWay;
    let center = Vec3::zero();

    let from_north = center.minus(Vec3::from_units(0, 10, 0)).normalized();
    let from_east = center.minus(Vec3::from_units(10, 0, 0)).normalized();
    let from_south = center.minus(Vec3::from_units(0, -10, 0)).normalized();

    assert_eq!(from_north, down());
    assert_eq!(from_east, left());
    assert_eq!(from_south, up());

    assert!(resolver.has_priority(
        TurnType::Straight,
        from_north,
        FIRST,
        0,
        TurnType::Straight,
        from_east,
        SECOND,
        0,
    ));

    assert!(!resolver.has_priority(
        TurnType::Straight,
        from_east,
        FIRST,
        0,
        TurnType::Straight,
        from_north,
        SECOND,
        0,
    ));

    assert!(resolver.has_priority(
        TurnType::Straight,
        from_east,
        FIRST,
        0,
        TurnType::Straight,
        from_south,
        SECOND,
        0,
    ));

    assert!(!resolver.has_priority(
        TurnType::Straight,
        from_south,
        FIRST,
        0,
        TurnType::Straight,
        from_east,
        SECOND,
        0,
    ));
}

#[test]
fn deadlock_is_broken_by_arrival_whatever_the_directions() {
    let resolver = YieldResolver::RightOfWay;
    let waited = from_ratio(6, 10);
    for (mine, theirs) in [(up(), down()), (left(), down()), (down(), left()), (right(), up())] {
        assert!(resolver.has_priority(
            TurnType::Straight,
            mine,
            7,
            waited,
            TurnType::Straight,
            theirs,
            9,
            waited,
        ));
        assert!(!resolver.has_priority(
            TurnType::Straight,
            theirs,
            9,
            waited,
            TurnType::Straight,
            mine,
            7,
            waited,
        ));
    }
}

#[test]
fn a_wait_of_exactly_half_a_second_breaks_no_deadlock() {
    let resolver = YieldResolver::RightOfWay;
    let half = ONE / 2;
    // East against north, both at the threshold: east still yields.
    assert!(!resolver.has_priority(
        TurnType::Straight,
        left(),
        FIRST,
        half,
        TurnType::Straight,
        down(),
        SECOND,
        half,
    ));
}

#[test]
fn a_vehicle_in_the_queue_goes_before_one_that_is_not() {
    let resolver = YieldResolver::RightOfWay;
    // East would yield to north by the side rule, but north has not arrived.
    assert!(resolver.has_priority(
        TurnType::Straight,
        left(),
        5,
        0,
        TurnType::Straight,
        down(),
        NO_ARRIVAL,
        0,
    ));
    assert!(!resolver.has_priority(
        TurnType::Straight,
        down(),
        NO_ARRIVAL,
        0,
        TurnType::Straight,
        left(),
        5,
        0,
    ));
}

#[test]
fn priority_is_never_mutual() {
    let resolvers = [YieldResolver::RightOfWay, YieldResolver::Roundabout];
    let turns = [
        TurnType::Straight,
        TurnType::Right(from_ratio(7, 10)),
        TurnType::Left(from_ratio(7, 10)),
        TurnType::RoundaboutEntry,
        TurnType::RoundaboutCircle,
        TurnType::RoundaboutExit,
    ];
    let directions = [up(), down(), left(), right()];
    let orders = [0u64, 3, NO_ARRIVAL];
    let waits = [0i64, ONE];
    for resolver in resolvers {
        for a_turn in turns {
            for b_turn in turns {
                for a_dir in directions {
                    for b_dir in directions {
                        for a_order in orders {
                            for b_order in orders {
                                for a_wait in waits {
                                    for b_wait in waits {
                                        let ab = resolver.has_priority(
                                            a_turn, a_dir, a_order, a_wait, b_turn, b_dir,
                                            b_order, b_wait,
                                        );
                                        let ba = resolver.has_priority(
                                            b_turn, b_dir, b_order, b_wait, a_turn, a_dir,
                                            a_order, a_wait,
                                        );
                                        assert!(!(ab && ba));
                                    }
                                }
                            }
                        }
                    }
                }
            }
        }
    }
}

#[test]
fn on_a_roundabout_the_circle_goes_before_the_ramp() {
    let resolver = YieldResolver::Roundabout;
    assert!(resolver.has_priority(
        TurnType::RoundaboutCircle,
        up(),
        SECOND,
        0,
        TurnType::RoundaboutEntry,
        left(),
        FIRST,
        0,
    ));
    assert!(!resolver.has_priority(
        TurnType::RoundaboutEntry,
        left(),
        FIRST,
        0,
        TurnType::RoundaboutCircle,
        up(),
        SECOND,
        0,
    ));
}

#[test]
fn turn_sharpness_is_signed_by_the_side() {
    let sharp = from_ratio(7, 10);
    assert_eq!(TurnType::Straight.cross(), 0);
    assert_eq!(TurnType::Right(sharp).cross(), -sharp);
    assert_eq!(TurnType::Right(-sharp).cross(), -sharp);
    assert_eq!(TurnType::Left(sharp).cross(), sharp);
    assert_eq!(TurnType::RoundaboutCircle.cross(), 0);
}

#[test]
fn a_turn_is_announced_unless_it_is_slight() {
    assert_eq!(TurnType::Straight.blinker(), Blinker::Off);
    assert_eq!(TurnType::Right(from_ratio(7, 10)).blinker(), Blinker::Right);
    assert_eq!(TurnType::Left(from_ratio(7, 10)).blinker(), Blinker::Left);
    assert_eq!(TurnType::Right(from_ratio(3, 10)).blinker(), Blinker::Off);
    assert_eq!(TurnType::Left(from_ratio(2, 10)).blinker(), Blinker::Off);
    assert_eq!(YieldResolver::default() as u8, YieldResolver::RightOfWay as u8);
    assert_eq!(Blinker::default(), Blinker::Off);
}
