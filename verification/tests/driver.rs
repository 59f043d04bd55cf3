use simulation::driver::blinker::{indicated, update_blinkers, Blinker};
use simulation::driver::gap::{
    apply_gap_acceptance, assign_arrivals, GapAcceptance, Snapshot, MIN_SAFE_DISTANCE,
};
use simulation::driver::idm::{apply_idm, blend, blend_with, Idm};
use simulation::driver::occupancy::{update_occupancy, SegmentOccupancy};
use simulation::driver::vehicle::{
    move_and_despawn_vehicles, spawn_vehicles, wants_spawn, Draws, Vehicle, DEFAULT_CAR_LENGTH,
    DEFAULT_CAR_WIDTH, MAX_VEHICLES,
};
use simulation::driver::yielding::{TurnType, YieldResolver, NO_ARRIVAL};
use simulation::fixed::{from_int, from_ratio, LIMIT, ONE};
use simulation::random::{random_index, random_unit};
use simulation::spawner::{spawn_vehicles as run_spawners, VehicleSpawner};
use simulation::{Id, Node, Road, Segment, Vec3};

/// Draws in the middle of their range: a driver whose parameters are not
/// moved.
fn even(aggression: i64) -> Draws {
    Draws { aggression, idm: (ONE / 2, ONE / 2, ONE / 2, ONE / 2), gap: ONE / 2 }
}

fn vehicle_on(road: &Road, segment: Id<Segment>, progress: i64, speed: i64) -> Vehicle {
    let destination = road.segments.get(&segment).to;
    let mut vehicle = Vehicle::with_draws(segment, destination, vec![segment], even(ONE / 2));
    vehicle.progress = progress;
    vehicle.speed = speed;
    vehicle
}

/// A spawn node 10 m west of a despawn node, one segment between them.
fn single_segment() -> (Road, Id<Segment>) {
    let mut road = Road::new();
    let a = road.add_spawn_node(Vec3::from_units(0, 0, 0));
    let b = road.add_despawn_node(Vec3::from_units(10, 0, 0));
    let ab = road.add_segment(a, b, from_int(5));
    (road, ab)
}

fn tick(dt: i64, vehicles: &mut Vec<Vehicle>, occupancy: &mut SegmentOccupancy, road: &mut Road) {
    update_occupancy(occupancy, vehicles, road);
    apply_gap_acceptance(dt, vehicles, road);
    apply_idm(dt, vehicles, occupancy, road);
    move_and_despawn_vehicles(dt, vehicles, road);
}

#[test]
fn a_new_vehicle_stands_at_the_start_of_its_segment() {
    let (road, ab) = single_segment();
    let destination = road.segments.get(&ab).to;
    let vehicle = Vehicle::with_draws(ab, destination, vec![ab], even(ONE / 2));
    assert_eq!(vehicle.speed, 0);
    assert_eq!(vehicle.progress, 0);
    assert_eq!(vehicle.segment.id, ab.id);
    assert_eq!(vehicle.destination.id, destination.id);
    assert_eq!(vehicle.route.len(), 1);
    assert_eq!(vehicle.length, DEFAULT_CAR_LENGTH);
    assert_eq!(vehicle.width, DEFAULT_CAR_WIDTH);
    assert_eq!(vehicle.length, from_ratio(45, 10));
    assert_eq!(vehicle.width, from_ratio(18, 10));
    assert_eq!(vehicle.blinker, Blinker::Off);
    assert!(!vehicle.braking);
    assert!(vehicle.player.is_none());
    assert!(vehicle.gap.waiting_time.is_none());
    assert_eq!(vehicle.gap.arrival_order, NO_ARRIVAL);
    assert!(!vehicle.gap.cleared_to_go);
}

#[test]
fn a_driver_is_blended_from_the_aggression() {
    // Draws of one half move nothing.
    let middle = Idm::with_draws(ONE / 2, (ONE / 2, ONE / 2, ONE / 2, ONE / 2));
    assert_eq!(middle.aggression, ONE / 2);
    assert_eq!(middle.desired_time_headway, from_ratio(115, 100));
    assert_eq!(middle.min_spacing, from_ratio(15, 10));
    assert_eq!(middle.max_acceleration, from_int(2));
    assert_eq!(middle.comfortable_deceleration, from_ratio(225, 100));
    let careful = Idm::with_draws(0, (ONE / 2, ONE / 2, ONE / 2, ONE / 2));
    assert_eq!(careful.desired_time_headway, from_ratio(15, 10));
    assert_eq!(careful.min_spacing, from_int(2));
    assert_eq!(careful.max_acceleration, from_int(1));
    assert_eq!(careful.comfortable_deceleration, from_ratio(15, 10));
    // A draw of nothing moves a parameter down by the whole range.
    let low = Idm::with_draws(ONE, (0, 0, 0, 0));
    assert_eq!(low.desired_time_headway, from_ratio(6, 10));
    // No parameter falls below one half.
    assert_eq!(low.min_spacing, from_ratio(5, 10));
    assert_eq!(low.max_acceleration, from_ratio(25, 10));
    assert_eq!(GapAcceptance::with_draw(ONE / 2, ONE / 2).min_gap, from_ratio(125, 100));
    assert_eq!(GapAcceptance::with_draw(0, 0).min_gap, from_ratio(13, 10));
}

#[test]
fn blending_adds_the_jitter_to_the_mix() {
    assert_eq!(blend_with(from_int(2), from_int(1), ONE / 2, from_ratio(5, 10), ONE / 2), from_ratio(15, 10));
    assert_eq!(blend_with(from_int(2), from_int(1), 0, from_ratio(5, 10), 0), from_ratio(15, 10));
    assert_eq!(blend_with(from_int(2), from_int(1), ONE, from_ratio(5, 10), ONE / 4), from_ratio(75, 100));
    for _ in 0..50 {
        let value = blend(from_int(2), from_int(1), ONE / 2, from_ratio(5, 10));
        assert!(from_int(1) <= value && value < from_int(2));
    }
}

#[test]
fn chance_stays_within_its_bounds() {
    let mut seen_low = false;
    let mut seen_high = false;
    for _ in 0..2000 {
        let draw = random_unit();
        assert!(0 <= draw && draw < ONE);
        seen_low |= draw < ONE / 2;
        seen_high |= draw >= ONE / 2;
        let pick = random_index(3).unwrap();
        assert!(pick < 3);
    }
    assert!(seen_low && seen_high);
    assert_eq!(random_index(1), Some(0));
    assert_eq!(random_index(0), None);
    let draws = Draws::random();
    assert!(0 <= draws.aggression && draws.aggression < ONE);
    let driver = Idm::new(ONE / 2);
    assert!(driver.max_acceleration >= from_ratio(15, 10));
    assert!(driver.max_acceleration < from_ratio(25, 10));
    let standing = GapAcceptance::new(ONE / 2);
    assert!(standing.min_gap >= from_ratio(105, 100) && standing.min_gap < from_ratio(145, 100));
}

#[test]
fn on_a_free_road_the_model_accelerates_to_the_desired_speed() {
    let driver = Idm::with_draws(ONE / 2, (ONE / 2, ONE / 2, ONE / 2, ONE / 2));
    // At rest with nothing ahead: the greatest acceleration.
    assert_eq!(driver.acceleration(from_int(5), 0, LIMIT, 0), from_int(2));
    // At the desired speed: none. The desired speed is the limit for an
    // aggression of one half.
    assert_eq!(driver.acceleration(from_int(5), from_int(5), LIMIT, 0), 0);
    // At half the desired speed: a · (1 − 1/16).
    assert_eq!(driver.acceleration(from_int(5), from_ratio(25, 10), LIMIT, 0), from_ratio(1875, 1000));
    // A careful driver wants 0.8 of the limit.
    let careful = Idm::with_draws(0, (ONE / 2, ONE / 2, ONE / 2, ONE / 2));
    assert_eq!(careful.acceleration(from_int(10), from_int(8), LIMIT, 0), 0);
}

#[test]
fn close_behind_another_the_model_brakes() {
    let driver = Idm::with_draws(ONE / 2, (ONE / 2, ONE / 2, ONE / 2, ONE / 2));
    // At rest at the desired spacing of 1.5 m: a · (1 − 1) = 0.
    assert_eq!(driver.acceleration(from_int(5), 0, from_ratio(15, 10), 0), 0);
    // At rest at twice the spacing: a · (1 − 1/4).
    assert_eq!(driver.acceleration(from_int(5), 0, from_int(3), 0), from_ratio(15, 10));
    // Closing in fast on a short gap: no harder than twice the comfortable
    // deceleration.
    assert_eq!(
        driver.acceleration(from_int(5), from_int(5), from_int(1), from_int(5)),
        -from_ratio(45, 10)
    );
    // A gap of nothing counts as a centimetre.
    assert_eq!(driver.acceleration(from_int(5), 0, 0, 0), -from_ratio(45, 10));
    assert_eq!(driver.acceleration(from_int(5), 0, -from_int(1), 0), -from_ratio(45, 10));
}

#[test]
fn the_index_orders_each_segment_by_progress() {
    let (road, ab) = single_segment();
    let vehicles = vec![
        vehicle_on(&road, ab, from_ratio(7, 10), from_int(1)),
        vehicle_on(&road, ab, from_ratio(2, 10), from_int(2)),
        vehicle_on(&road, ab, from_ratio(5, 10), from_int(3)),
        vehicle_on(&road, ab, from_ratio(5, 10), from_int(4)),
    ];
    let mut occupancy = SegmentOccupancy::new();
    update_occupancy(&mut occupancy, &vehicles, &road);
    assert_eq!(occupancy.vehicles.len(), 1);
    let order: Vec<usize> = occupancy.vehicles[0].iter().map(|o| o.vehicle).collect();
    assert_eq!(order, vec![1, 2, 3, 0]);
    let speeds: Vec<i64> = occupancy.vehicles[0].iter().map(|o| o.speed).collect();
    assert_eq!(speeds, vec![from_int(2), from_int(3), from_int(4), from_int(1)]);
    assert!(occupancy.vehicles[0].iter().all(|o| o.segment.id == ab.id));
    // Built anew, the index forgets what it held.
    update_occupancy(&mut occupancy, &Vec::new(), &road);
    assert!(occupancy.vehicles[0].is_empty());
    assert!(SegmentOccupancy::default().vehicles.is_empty());
}

#[test]
fn the_vehicle_ahead_is_the_nearest_beyond() {
    let (road, ab) = single_segment();
    let vehicles = vec![
        vehicle_on(&road, ab, from_ratio(2, 10), from_int(1)),
        vehicle_on(&road, ab, from_ratio(5, 10), from_int(2)),
        vehicle_on(&road, ab, from_ratio(9, 10), from_int(3)),
    ];
    let mut occupancy = SegmentOccupancy::new();
    update_occupancy(&mut occupancy, &vehicles, &road);
    let (leader, distance) = occupancy.find_next(0, &vehicles[0], &road).unwrap();
    assert_eq!(leader.vehicle, 1);
    assert_eq!(leader.speed, from_int(2));
    assert_eq!(distance, from_int(3));
    let (leader, distance) = occupancy.find_next(1, &vehicles[1], &road).unwrap();
    assert_eq!(leader.vehicle, 2);
    assert_eq!(distance, from_int(4));
    assert!(occupancy.find_next(2, &vehicles[2], &road).is_none());
}

#[test]
fn the_search_ahead_goes_on_over_the_next_segments() {
    // Twelve segments of 10 m in a row.
    let mut road = Road::new();
    let mut nodes: Vec<Id<Node>> = Vec::new();
    for k in 0..13 {
        nodes.push(road.add_node(Vec3::from_units(10 * k, 0, 0)));
    }
    let mut segments = Vec::new();
    for k in 0..12 {
        segments.push(road.add_segment(nodes[k], nodes[k + 1], from_int(5)));
    }
    let me = vehicle_on(&road, segments[0], from_ratio(4, 10), from_int(1));
    for (far, expected) in [(2usize, Some(from_int(6 + 10 + 3))), (9, Some(from_int(6 + 80 + 3))), (10, None)] {
        let vehicles = vec![
            vehicle_on(&road, segments[0], from_ratio(4, 10), from_int(1)),
            vehicle_on(&road, segments[far], from_ratio(3, 10), from_int(2)),
        ];
        let mut occupancy = SegmentOccupancy::new();
        update_occupancy(&mut occupancy, &vehicles, &road);
        let found = occupancy.find_next(0, &me, &road);
        assert_eq!(found.map(|(leader, distance)| (leader.vehicle, distance)), expected.map(|d| (1, d)));
    }
    // A vehicle behind on the same segment is not ahead; one at the same
    // progress is not either.
    let vehicles = vec![
        vehicle_on(&road, segments[0], from_ratio(4, 10), from_int(1)),
        vehicle_on(&road, segments[0], from_ratio(1, 10), from_int(2)),
        vehicle_on(&road, segments[0], from_ratio(4, 10), from_int(2)),
    ];
    let mut occupancy = SegmentOccupancy::new();
    update_occupancy(&mut occupancy, &vehicles, &road);
    assert!(occupancy.find_next(0, &vehicles[0], &road).is_none());
}

#[test]
fn movement_turns_speed_into_progress() {
    let (road, ab) = single_segment();
    let mut vehicles = vec![vehicle_on(&road, ab, from_ratio(2, 10), from_int(5))];
    let left = move_and_despawn_vehicles(from_ratio(1, 10), &mut vehicles, &road);
    assert_eq!(left, vec![false]);
    // 5 m/s for 0.1 s on 10 m: a twentieth of the segment.
    assert_eq!(vehicles[0].progress, from_ratio(25, 100));
    assert_eq!(vehicles[0].speed, from_int(5));
}

#[test]
fn at_a_dead_end_a_vehicle_leaves() {
    let (road, ab) = single_segment();
    let mut vehicles = vec![
        vehicle_on(&road, ab, from_ratio(5, 10), from_int(5)),
        vehicle_on(&road, ab, from_ratio(99, 100), from_int(5)),
        vehicle_on(&road, ab, from_ratio(1, 10), from_int(5)),
    ];
    let left = move_and_despawn_vehicles(from_ratio(1, 10), &mut vehicles, &road);
    assert_eq!(left, vec![false, true, false]);
    assert_eq!(vehicles.len(), 2);
    assert_eq!(vehicles[0].progress, from_ratio(55, 100));
    assert_eq!(vehicles[1].progress, from_ratio(15, 100));
}

#[test]
fn at_the_end_of_a_segment_a_vehicle_goes_on_along_its_route() {
    // a → b → c, 10 m and 20 m.
    let mut road = Road::new();
    let a = road.add_node(Vec3::from_units(0, 0, 0));
    let b = road.add_node(Vec3::from_units(10, 0, 0));
    let c = road.add_node(Vec3::from_units(30, 0, 0));
    let ab = road.add_segment(a, b, from_int(5));
    let bc = road.add_segment(b, c, from_int(5));
    let mut vehicle = Vehicle::with_draws(ab, c, vec![ab, bc], even(ONE / 2));
    vehicle.progress = from_ratio(9, 10);
    vehicle.speed = from_int(5);
    vehicle.gap.waiting_time = Some(from_int(1));
    vehicle.gap.arrival_order = 3;
    vehicle.gap.cleared_to_go = true;
    let mut vehicles = vec![vehicle];
    // 5 m/s for 0.4 s: 2 m, of which 1 m beyond the end.
    let left = move_and_despawn_vehicles(from_ratio(4, 10), &mut vehicles, &road);
    assert_eq!(left, vec![false]);
    let vehicle = &vehicles[0];
    assert_eq!(vehicle.segment.id, bc.id);
    assert_eq!(vehicle.route.iter().map(|s| s.id).collect::<Vec<_>>(), vec![bc.id]);
    assert_eq!(vehicle.progress, from_ratio(5, 100));
    assert!(vehicle.gap.waiting_time.is_none());
    assert_eq!(vehicle.gap.arrival_order, NO_ARRIVAL);
    assert!(vehicle.gap.cleared_to_go);
    assert_eq!(vehicle.speed, from_int(5));
}

#[test]
fn without_a_way_on_a_vehicle_leaves() {
    // a → b → c, but the vehicle is bound for d, to which nothing leads.
    let mut road = Road::new();
    let a = road.add_node(Vec3::from_units(0, 0, 0));
    let b = road.add_node(Vec3::from_units(10, 0, 0));
    let c = road.add_node(Vec3::from_units(30, 0, 0));
    let d = road.add_node(Vec3::from_units(30, 30, 0));
    let ab = road.add_segment(a, b, from_int(5));
    road.add_segment(b, c, from_int(5));
    let mut vehicle = Vehicle::with_draws(ab, d, vec![ab], even(ONE / 2));
    vehicle.progress = from_ratio(99, 100);
    vehicle.speed = from_int(5);
    let mut vehicles = vec![vehicle];
    let left = move_and_despawn_vehicles(from_ratio(1, 10), &mut vehicles, &road);
    assert_eq!(left, vec![true]);
    assert!(vehicles.is_empty());
}

#[test]
fn single_straight_segment_one_vehicle() {
    let (mut road, ab) = single_segment();
    let mut vehicles = vec![vehicle_on(&road, ab, 0, 0)];
    let mut occupancy = SegmentOccupancy::new();
    let dt = from_ratio(1, 10);
    let mut speed_after_two_seconds = 0;
    for step in 1..=50 {
        tick(dt, &mut vehicles, &mut occupancy, &mut road);
        for vehicle in &vehicles {
            assert!(0 <= vehicle.progress && vehicle.progress <= ONE);
            assert!(vehicle.speed >= 0);
        }
        if step == 20 {
            speed_after_two_seconds = vehicles[0].speed;
        }
    }
    // The vehicle has left, and nothing else has come.
    assert!(vehicles.is_empty());
    // Ramping up at up to 2 m/s² toward 5 m/s: about 3.5 m/s after 2 s.
    assert!((speed_after_two_seconds - from_ratio(35, 10)).abs() <= from_ratio(3, 10));
}

#[test]
fn the_model_keeps_vehicles_apart() {
    // Two vehicles on a long segment, the one behind much faster.
    let mut road = Road::new();
    let a = road.add_node(Vec3::from_units(0, 0, 0));
    let b = road.add_node(Vec3::from_units(400, 0, 0));
    let ab = road.add_segment(a, b, from_int(10));
    let mut vehicles = vec![
        vehicle_on(&road, ab, 0, from_int(10)),
        vehicle_on(&road, ab, from_ratio(5, 100), 0),
    ];
    vehicles[1].player = Some(simulation::driver::vehicle::PlayerControlled);
    let mut occupancy = SegmentOccupancy::new();
    let dt = from_ratio(1, 20);
    for _ in 0..400 {
        tick(dt, &mut vehicles, &mut occupancy, &mut road);
        assert_eq!(vehicles.len(), 2);
        // The second stands still: the player does not touch it.
        assert_eq!(vehicles[1].speed, 0);
        assert_eq!(vehicles[1].progress, from_ratio(5, 100));
        assert!(vehicles[0].progress < vehicles[1].progress);
        assert!(vehicles[0].speed >= 0);
    }
    // The first has come to rest behind it.
    assert!(vehicles[0].speed < from_ratio(1, 10));
    assert!(vehicles[0].braking || vehicles[0].speed == 0);
}

#[test]
fn arrival_orders_are_handed_out_once() {
    let (mut road, _, _) = crossing();
    let x = Id::new(0);
    let paths: Vec<Id<Segment>> = road.intersections.get(&x).incoming.clone();
    // Four vehicles bound for paths of the intersection, one of them still far.
    let mut vehicles = Vec::new();
    for (k, progress) in [(0usize, 9), (3, 8), (6, 2), (9, 7)] {
        let path = paths[k];
        let approach = road.segments.get(&path).from;
        let segment = road.nodes.get(&approach).incoming[0];
        let destination = road.segments.get(&path).to;
        let mut vehicle = Vehicle::with_draws(segment, destination, vec![segment, path], even(ONE / 2));
        vehicle.progress = from_ratio(progress, 10);
        vehicles.push(vehicle);
    }
    assign_arrivals(&mut vehicles, &mut road);
    let orders: Vec<u64> = vehicles.iter().map(|v| v.gap.arrival_order).collect();
    assert_eq!(orders, vec![0, 1, NO_ARRIVAL, 2]);
    assert_eq!(road.intersections.get(&x).arrival_counter, 3);
    // A second round keeps what was handed out.
    vehicles[2].progress = from_ratio(6, 10);
    assign_arrivals(&mut vehicles, &mut road);
    let orders: Vec<u64> = vehicles.iter().map(|v| v.gap.arrival_order).collect();
    assert_eq!(orders, vec![0, 1, 3, 2]);
    assert_eq!(road.intersections.get(&x).arrival_counter, 4);
    let mut sorted = orders.clone();
    sorted.sort();
    sorted.dedup();
    assert_eq!(sorted.len(), orders.len());
}

/// A crossing of four roads, expanded.
fn crossing() -> (Road, Id<Node>, [Id<Node>; 4]) {
    let mut road = Road::new();
    let center = road.add_intersection_node(Vec3::from_units(0, 0, 0), YieldResolver::RightOfWay);
    let east = road.add_edge_node(Vec3::from_units(20, 0, 0));
    let north = road.add_edge_node(Vec3::from_units(0, 20, 0));
    let west = road.add_edge_node(Vec3::from_units(-20, 0, 0));
    let south = road.add_edge_node(Vec3::from_units(0, -20, 0));
    for edge in [east, north, west, south] {
        road.add_bidirectional(edge, center, from_int(10));
    }
    road.finalize();
    (road, center, [east, north, west, south])
}

/// The straight path across the crossing that is entered with `heading`.
fn straight_path(road: &Road, heading: Vec3) -> Id<Segment> {
    let x = road.intersections.get(&Id::new(0));
    for (k, id) in x.incoming.iter().enumerate() {
        if road.segments.get(id).turn_type == TurnType::Straight && x.entry_directions[k] == heading {
            return *id;
        }
    }
    panic!("no straight path with that heading");
}

/// A vehicle on the road that leads to `path`, about to take it.
fn approaching(road: &Road, path: Id<Segment>, progress: i64, speed: i64) -> Vehicle {
    let entry = road.segments.get(&path).from;
    let segment = road.nodes.get(&entry).incoming[0];
    let destination = road.segments.get(&path).to;
    let mut vehicle = Vehicle::with_draws(segment, destination, vec![segment, path], even(ONE / 2));
    vehicle.progress = progress;
    vehicle.speed = speed;
    vehicle
}

#[test]
fn four_way_intersection_yield_to_right() {
    let (mut road, _, _) = crossing();
    // From the north heading south, from the east heading west, both straight.
    let from_north = straight_path(&road, Vec3::from_units(0, -1, 0));
    let from_east = straight_path(&road, Vec3::from_units(-1, 0, 0));
    let x = road.intersections.get(&Id::new(0));
    assert!(x.has_conflict(from_north, from_east));
    assert!(x.yield_resolver.has_priority(
        TurnType::Straight,
        x.direction_of(from_north).unwrap(),
        0,
        0,
        TurnType::Straight,
        x.direction_of(from_east).unwrap(),
        1,
        0,
    ));
    let mut vehicles = vec![
        approaching(&road, from_north, from_ratio(9, 10), from_int(5)),
        approaching(&road, from_east, from_ratio(9, 10), from_int(5)),
    ];
    let dt = from_ratio(1, 10);
    apply_gap_acceptance(dt, &mut vehicles, &mut road);
    // North goes, east waits.
    assert!(vehicles[0].gap.cleared_to_go);
    assert!(vehicles[0].gap.waiting_time.is_none());
    assert!(!vehicles[1].gap.cleared_to_go);
    assert_eq!(vehicles[1].gap.waiting_time, Some(dt));
    assert_eq!(vehicles[0].gap.arrival_order, 0);
    assert_eq!(vehicles[1].gap.arrival_order, 1);
    // Another tick, and east has waited twice as long.
    apply_gap_acceptance(dt, &mut vehicles, &mut road);
    assert_eq!(vehicles[1].gap.waiting_time, Some(2 * dt));
}

#[test]
fn a_vehicle_inside_the_intersection_is_yielded_to() {
    let (mut road, _, _) = crossing();
    let from_north = straight_path(&road, Vec3::from_units(0, -1, 0));
    let from_east = straight_path(&road, Vec3::from_units(-1, 0, 0));
    // North would go first, but east is already on its path across.
    let inside = {
        let destination = road.segments.get(&from_east).to;
        let mut vehicle = Vehicle::with_draws(from_east, destination, vec![from_east], even(ONE / 2));
        vehicle.progress = from_ratio(3, 10);
        vehicle.speed = from_int(3);
        vehicle
    };
    let mut vehicles = vec![approaching(&road, from_north, from_ratio(9, 10), from_int(5)), inside];
    apply_gap_acceptance(from_ratio(1, 10), &mut vehicles, &mut road);
    assert!(!vehicles[0].gap.cleared_to_go);
    assert_eq!(vehicles[0].gap.waiting_time, Some(from_ratio(1, 10)));
}

#[test]
fn a_far_and_slow_vehicle_leaves_a_gap() {
    let (mut road, _, _) = crossing();
    let from_north = straight_path(&road, Vec3::from_units(0, -1, 0));
    let from_east = straight_path(&road, Vec3::from_units(-1, 0, 0));
    // East has to yield to north, which is in the waiting zone, 3.5 m from
    // the entry. At 1 m/s that leaves more than a second, at 10 m/s it does
    // not.
    let approach_length = {
        let v = approaching(&road, from_north, 0, 0);
        road.segments.get(&v.segment).length
    };
    let progress =
        ONE - simulation::fixed::fx_div(from_ratio(35, 10) + DEFAULT_CAR_LENGTH / 2, approach_length);
    assert!(progress > ONE / 2);
    for (speed, cleared) in [(from_int(1), true), (from_int(10), false)] {
        let mut vehicles = vec![
            approaching(&road, from_east, from_ratio(9, 10), from_int(5)),
            approaching(&road, from_north, progress, speed),
        ];
        apply_gap_acceptance(from_ratio(1, 10), &mut vehicles, &mut road);
        assert_eq!(vehicles[0].gap.cleared_to_go, cleared);
    }
    // Closer than the safe distance it is yielded to whatever its speed.
    assert_eq!(MIN_SAFE_DISTANCE, from_int(3));
    let near = ONE - simulation::fixed::fx_div(from_int(2) + DEFAULT_CAR_LENGTH / 2, approach_length);
    let mut vehicles = vec![
        approaching(&road, from_east, from_ratio(9, 10), from_int(5)),
        approaching(&road, from_north, near, 0),
    ];
    apply_gap_acceptance(from_ratio(1, 10), &mut vehicles, &mut road);
    assert!(!vehicles[0].gap.cleared_to_go);
}

#[test]
fn before_the_second_half_of_a_segment_nothing_is_decided() {
    let (mut road, _, _) = crossing();
    let from_north = straight_path(&road, Vec3::from_units(0, -1, 0));
    let from_east = straight_path(&road, Vec3::from_units(-1, 0, 0));
    let mut vehicles = vec![
        approaching(&road, from_east, from_ratio(5, 10), from_int(5)),
        approaching(&road, from_north, from_ratio(9, 10), from_int(5)),
    ];
    apply_gap_acceptance(from_ratio(1, 10), &mut vehicles, &mut road);
    assert!(!vehicles[0].gap.cleared_to_go);
    assert!(vehicles[0].gap.waiting_time.is_none());
    assert_eq!(vehicles[0].gap.arrival_order, NO_ARRIVAL);
    assert!(vehicles[1].gap.cleared_to_go);
}

#[test]
fn a_held_vehicle_stops_at_the_end_of_its_segment() {
    let (mut road, _, _) = crossing();
    let from_north = straight_path(&road, Vec3::from_units(0, -1, 0));
    let from_east = straight_path(&road, Vec3::from_units(-1, 0, 0));
    // North stands inside the crossing on its path and does not move; east
    // approaches and has to stop before the crossing.
    let blocker = {
        let destination = road.segments.get(&from_north).to;
        let mut vehicle = Vehicle::with_draws(from_north, destination, vec![from_north], even(ONE / 2));
        vehicle.progress = from_ratio(5, 10);
        vehicle.player = Some(simulation::driver::vehicle::PlayerControlled);
        vehicle
    };
    let mut vehicles = vec![approaching(&road, from_east, 0, from_int(5)), blocker];
    let approach = vehicles[0].segment;
    let mut occupancy = SegmentOccupancy::new();
    for _ in 0..600 {
        tick(from_ratio(1, 20), &mut vehicles, &mut occupancy, &mut road);
        assert_eq!(vehicles.len(), 2);
        assert_eq!(vehicles[0].segment.id, approach.id);
    }
    assert!(vehicles[0].speed < from_ratio(1, 10));
    assert!(vehicles[0].progress > from_ratio(5, 10));
    assert!(!vehicles[0].gap.cleared_to_go);
    assert!(vehicles[0].gap.waiting_time.unwrap() > from_int(5));
}

#[test]
fn roundabout_conflict_rule() {
    let mut road = Road::new();
    let center = road.add_intersection_node(Vec3::from_units(0, 0, 0), YieldResolver::Roundabout);
    for (x, y) in [(40, 0), (0, 40), (-40, 0)] {
        let edge = road.add_edge_node(Vec3::from_units(x, y, 0));
        road.add_bidirectional(edge, center, from_int(10));
    }
    road.finalize();
    let x = road.intersections.get(&Id::new(0));
    let ramp = *x
        .incoming
        .iter()
        .find(|id| road.segments.get(id).turn_type == TurnType::RoundaboutEntry)
        .unwrap();
    let merge_node = road.segments.get(&ramp).to;
    let arcs: Vec<Id<Segment>> = x
        .incoming
        .iter()
        .copied()
        .filter(|id| road.segments.get(id).turn_type == TurnType::RoundaboutCircle)
        .collect();
    let arc_into = *arcs.iter().find(|id| road.segments.get(id).to.id == merge_node.id).unwrap();
    let arc_elsewhere = *arcs
        .iter()
        .find(|id| {
            let s = road.segments.get(id);
            s.to.id != merge_node.id && s.from.id != merge_node.id
        })
        .unwrap();
    for (arc, cleared) in [(arc_into, false), (arc_elsewhere, true)] {
        let on_circle = {
            let destination = road.segments.get(&arc).to;
            let mut vehicle = Vehicle::with_draws(arc, destination, vec![arc], even(ONE / 2));
            vehicle.progress = from_ratio(3, 10);
            vehicle.speed = from_int(5);
            vehicle
        };
        let mut vehicles = vec![approaching(&road, ramp, from_ratio(9, 10), from_int(5)), on_circle];
        apply_gap_acceptance(from_ratio(1, 10), &mut vehicles, &mut road);
        assert_eq!(vehicles[0].gap.cleared_to_go, cleared);
        assert_eq!(vehicles[0].gap.waiting_time.is_some(), !cleared);
    }
}

#[test]
fn the_indicator_shows_the_turn_ahead() {
    assert_eq!(indicated(Vec3::from_units(1, 0, 0), Vec3::from_units(0, 1, 0)), Blinker::Left);
    assert_eq!(indicated(Vec3::from_units(1, 0, 0), Vec3::from_units(0, -1, 0)), Blinker::Right);
    assert_eq!(indicated(Vec3::from_units(1, 0, 0), Vec3::from_units(1, 0, 0)), Blinker::Off);
    assert_eq!(indicated(Vec3::new(ONE, 0, 0), Vec3::new(953_939, 300_000, 0)), Blinker::Off);
    assert_eq!(indicated(Vec3::new(ONE, 0, 0), Vec3::new(953_939, 300_001, 0)), Blinker::Left);

    // a → b → c with a turn to the left at b, and b → d straight on.
    let mut road = Road::new();
    let a = road.add_node(Vec3::from_units(0, 0, 0));
    let b = road.add_node(Vec3::from_units(10, 0, 0));
    let c = road.add_node(Vec3::from_units(10, 10, 0));
    let d = road.add_node(Vec3::from_units(20, 0, 0));
    let ab = road.add_segment(a, b, from_int(5));
    let bc = road.add_segment(b, c, from_int(5));
    let bd = road.add_segment(b, d, from_int(5));
    let mut turning = Vehicle::with_draws(ab, c, vec![ab, bc], even(ONE / 2));
    turning.progress = from_ratio(5, 10);
    let mut early = Vehicle::with_draws(ab, c, vec![ab, bc], even(ONE / 2));
    early.progress = from_ratio(49, 100);
    early.blinker = Blinker::Right;
    let mut straight = Vehicle::with_draws(ab, d, vec![ab, bd], even(ONE / 2));
    straight.progress = from_ratio(9, 10);
    let mut last = Vehicle::with_draws(bc, c, vec![bc], even(ONE / 2));
    last.progress = from_ratio(9, 10);
    last.blinker = Blinker::Left;
    let mut vehicles = vec![turning, early, straight, last];
    update_blinkers(&mut vehicles, &road);
    let shown: Vec<Blinker> = vehicles.iter().map(|v| v.blinker).collect();
    assert_eq!(shown, vec![Blinker::Left, Blinker::Off, Blinker::Off, Blinker::Off]);
}

#[test]
fn vehicles_appear_at_sources_bound_for_goals() {
    assert!(wants_spawn(from_ratio(9, 100), 39));
    assert!(!wants_spawn(from_ratio(1, 10), 0));
    assert!(!wants_spawn(0, 40));
    assert_eq!(MAX_VEHICLES, 40);

    let (road, _, edges) = crossing();
    let trips = road.trips_from(road.segments.get(&Id::new(0)).from);
    // From the node where the road from the east starts, the three other
    // edges can be reached; the east itself lies at another place as well,
    // since its lanes were moved apart, and is reached by going round.
    assert!(trips.len() >= 3);
    for trip in &trips {
        assert!(road.nodes.get(&trip.destination).is_despawn);
        assert_eq!(trip.first.id, trip.route[0].id);
        assert_eq!(road.segments.get(trip.route.last().unwrap()).to.id, trip.destination.id);
    }
    let _ = edges;

    let mut vehicles: Vec<Vehicle> = Vec::new();
    for _ in 0..2000 {
        spawn_vehicles(&mut vehicles, &road);
    }
    assert_eq!(vehicles.len(), MAX_VEHICLES);
    for vehicle in &vehicles {
        assert_eq!(vehicle.progress, 0);
        assert_eq!(vehicle.speed, 0);
        assert_eq!(vehicle.segment.id, vehicle.route[0].id);
        let start = road.nodes.get(&road.segments.get(&vehicle.segment).from);
        assert!(start.is_spawn);
        let goal = road.nodes.get(&vehicle.destination);
        assert!(goal.is_despawn);
        assert!(goal.position != start.position);
        assert_eq!(road.segments.get(vehicle.route.last().unwrap()).to.id, vehicle.destination.id);
    }
}

#[test]
fn a_spawner_launches_at_its_rate() {
    let (road, ab) = single_segment();
    let spawner = VehicleSpawner::new(ab, from_int(2));
    assert_eq!(spawner.timer, from_ratio(1, 2));
    assert_eq!(spawner.vehicle_speed, from_int(2));
    let spawner = spawner.with_speed(from_int(3));
    assert_eq!(spawner.vehicle_speed, from_int(3));
    assert_eq!(spawner.rate, from_int(2));

    let mut clock = spawner;
    assert!(!clock.tick(from_ratio(2, 10)));
    assert_eq!(clock.timer, from_ratio(3, 10));
    assert!(!clock.tick(from_ratio(2, 10)));
    assert!(clock.tick(from_ratio(2, 10)));
    assert_eq!(clock.timer, from_ratio(1, 2));

    let mut spawners = vec![spawner];
    let mut vehicles: Vec<Vehicle> = Vec::new();
    for _ in 0..20 {
        run_spawners(from_ratio(1, 10), &mut spawners, &mut vehicles, &road);
    }
    // Two per second for two seconds.
    assert_eq!(vehicles.len(), 4);
    for vehicle in &vehicles {
        assert_eq!(vehicle.speed, from_int(3));
        assert_eq!(vehicle.segment.id, ab.id);
        assert_eq!(vehicle.progress, 0);
        assert_eq!(vehicle.destination.id, road.segments.get(&ab).to.id);
    }
}

#[test]
fn a_snapshot_holds_what_the_check_reads() {
    let (road, ab) = single_segment();
    let mut vehicle = vehicle_on(&road, ab, from_ratio(3, 10), from_int(4));
    vehicle.gap.waiting_time = Some(from_int(2));
    vehicle.gap.arrival_order = 5;
    let shot: Snapshot = vehicle.snapshot();
    assert_eq!(shot.segment.id, ab.id);
    assert!(shot.next.is_none());
    assert_eq!(shot.progress, from_ratio(3, 10));
    assert_eq!(shot.speed, from_int(4));
    assert_eq!(shot.length, DEFAULT_CAR_LENGTH);
    assert_eq!(shot.waiting_time, from_int(2));
    assert_eq!(shot.arrival_order, 5);
    assert_eq!(road.distance_to_end(ab, from_ratio(3, 10), DEFAULT_CAR_LENGTH), from_ratio(475, 100));
    assert_eq!(road.distance_to_end(ab, from_ratio(9, 10), DEFAULT_CAR_LENGTH), 0);
}
