use simulation::driver::yielding::{TurnType, YieldResolver};
use simulation::fixed::{from_int, from_ratio, ONE};
use simulation::junction::{INTERSECTION_RADIUS, LANE_OFFSET, RAMP_LENGTH, ROUNDABOUT_RADIUS};
use simulation::scenario::test_intersection;
use simulation::{Id, Intersection, Node, Road, Segment, SegmentGeometry, Vec3};

fn lists(list: &[Id<Segment>], s: usize) -> bool {
    list.iter().any(|x| x.id == s)
}

/// Every index is in range and every segment is listed at both of its ends.
fn check_wiring(road: &Road) {
    let nodes = road.nodes.len();
    let segments = road.segments.len();
    for node in road.nodes.iter() {
        assert!(node.incoming.iter().all(|s| s.id < segments));
        assert!(node.outgoing.iter().all(|s| s.id < segments));
    }
    for (id, segment) in road.segments.iter_with_ids() {
        assert!(segment.from.id < nodes);
        assert!(segment.to.id < nodes);
        assert!(lists(&road.nodes.get(&segment.from).outgoing, id.id));
        assert!(lists(&road.nodes.get(&segment.to).incoming, id.id));
    }
    for x in road.intersections.iter() {
        assert!(x.incoming.iter().all(|s| s.id < segments));
        assert!(x.edge_nodes.iter().all(|n| n.id < nodes));
        assert_eq!(x.entry_directions.len(), x.incoming.len());
    }
}

fn check_conflicts_mutual(x: &Intersection) {
    for (a, b) in &x.conflicts {
        assert!(x.has_conflict(*b, *a));
        assert!(x.has_conflict(*a, *b));
    }
}

fn position(road: &Road, node: Id<Node>) -> Vec3 {
    road.nodes.get(&node).position
}

fn midpoint(road: &Road, segment: Id<Segment>) -> Vec3 {
    let s = road.segments.get(&segment);
    s.geometry.position_at(position(road, s.from), position(road, s.to), ONE / 2)
}

fn four_way(resolver: YieldResolver) -> (Road, Id<Node>, [Id<Node>; 4]) {
    let mut road = Road::new();
    let center = road.add_intersection_node(Vec3::from_units(0, 0, 0), resolver);
    let east = road.add_edge_node(Vec3::from_units(20, 0, 0));
    let north = road.add_edge_node(Vec3::from_units(0, 20, 0));
    let west = road.add_edge_node(Vec3::from_units(-20, 0, 0));
    let south = road.add_edge_node(Vec3::from_units(0, -20, 0));
    for edge in [east, north, west, south] {
        road.add_bidirectional(edge, center, from_int(10));
    }
    (road, center, [east, north, west, south])
}

#[test]
fn nodes_are_added_with_their_flags() {
    let mut road = Road::new();
    let plain = road.add_node(Vec3::from_units(1, 2, 0));
    let spawn = road.add_spawn_node(Vec3::from_units(3, 4, 0));
    let despawn = road.add_despawn_node(Vec3::from_units(5, 6, 0));
    let edge = road.add_edge_node(Vec3::from_units(7, 8, 0));
    let crossing = road.add_intersection_node(Vec3::from_units(9, 9, 0), YieldResolver::Roundabout);
    assert_eq!([plain.id, spawn.id, despawn.id, edge.id, crossing.id], [0, 1, 2, 3, 4]);
    let flags: Vec<(bool, bool)> =
        road.nodes.iter().iter().map(|n| (n.is_spawn, n.is_despawn)).collect();
    assert_eq!(flags, vec![(false, false), (true, false), (false, true), (true, true), (false, false)]);
    assert_eq!(position(&road, despawn), Vec3::from_units(5, 6, 0));
    assert!(road.nodes.get(&plain).yield_resolver.is_none());
    assert_eq!(road.nodes.get(&crossing).yield_resolver, Some(YieldResolver::Roundabout));
    assert!(road.nodes.iter().iter().all(|n| n.incoming.is_empty() && n.outgoing.is_empty()));
}

#[test]
fn a_segment_is_wired_to_both_ends() {
    let mut road = Road::new();
    let a = road.add_node(Vec3::from_units(0, 0, 0));
    let b = road.add_node(Vec3::from_units(3, 4, 0));
    let ab = road.add_segment(a, b, from_int(7));
    assert_eq!(ab.id, 0);
    let s = road.segments.get(&ab);
    assert_eq!((s.from.id, s.to.id), (a.id, b.id));
    assert_eq!(s.speed_limit, from_int(7));
    assert_eq!(s.length, from_int(5));
    assert_eq!(s.geometry, SegmentGeometry::Straight);
    assert_eq!(s.turn_type, TurnType::Straight);
    assert_eq!(road.nodes.get(&a).outgoing.len(), 1);
    assert_eq!(road.nodes.get(&a).incoming.len(), 0);
    assert_eq!(road.nodes.get(&b).incoming.len(), 1);
    assert_eq!(road.nodes.get(&b).outgoing.len(), 0);
    let (there, back) = road.add_bidirectional(a, b, from_int(7));
    assert_eq!((there.id, back.id), (1, 2));
    assert_eq!(road.segments.get(&back).from.id, b.id);
    assert_eq!(road.segments.get(&back).to.id, a.id);
    check_wiring(&road);
}

#[test]
fn the_two_directions_of_a_road_get_lanes_of_their_own() {
    let mut road = Road::new();
    let a = road.add_node(Vec3::from_units(0, 0, 0));
    let b = road.add_node(Vec3::from_units(10, 0, 0));
    let (a_to_b, b_to_a) = road.add_bidirectional(a, b, from_int(5));
    road.finalize();
    check_wiring(&road);
    // To the right of the direction from a to b is the south.
    assert_eq!(midpoint(&road, a_to_b), Vec3::new(5_000_000, -LANE_OFFSET, 0));
    assert_eq!(midpoint(&road, b_to_a), Vec3::new(5_000_000, LANE_OFFSET, 0));
    let there = road.segments.get(&a_to_b);
    assert_eq!(position(&road, there.from), Vec3::new(0, -LANE_OFFSET, 0));
    assert_eq!(position(&road, there.to), Vec3::new(10_000_000, -LANE_OFFSET, 0));
    assert_eq!(there.length, from_int(10));
    assert_eq!(road.segments.len(), 2);
    assert_eq!(road.nodes.len(), 6);
    assert_eq!(road.intersections.len(), 0);
    // The nodes that the segments left list nothing any more.
    assert!(road.nodes.get(&a).outgoing.is_empty() && road.nodes.get(&a).incoming.is_empty());
    assert!(road.nodes.get(&b).outgoing.is_empty() && road.nodes.get(&b).incoming.is_empty());
}

#[test]
fn lanes_take_over_the_part_of_their_old_ends() {
    let mut road = Road::new();
    let a = road.add_spawn_node(Vec3::from_units(0, 0, 0));
    let b = road.add_despawn_node(Vec3::from_units(0, 10, 0));
    let ab = road.add_segment(a, b, from_int(5));
    road.finalize();
    let s = road.segments.get(&ab);
    let from = road.nodes.get(&s.from);
    let to = road.nodes.get(&s.to);
    assert!(from.is_spawn && !from.is_despawn);
    assert!(to.is_despawn && !to.is_spawn);
    // Heading north, the lane is to the east.
    assert_eq!(from.position, Vec3::new(LANE_OFFSET, 0, 0));
    assert_eq!(to.position, Vec3::new(LANE_OFFSET, 10_000_000, 0));
    assert!(!road.nodes.get(&a).is_spawn);
    assert!(!road.nodes.get(&b).is_despawn);
}

#[test]
fn a_junction_becomes_a_ring_of_nodes() {
    let (mut road, center, edges) = four_way(YieldResolver::RightOfWay);
    road.finalize();
    check_wiring(&road);
    assert_eq!(road.intersections.len(), 1);
    let x = road.intersections.get(&Id::new(0));
    assert_eq!(x.position, Vec3::from_units(0, 0, 0));
    assert_eq!(x.edge_nodes.len(), 8);
    assert_eq!(x.arrival_counter, 0);
    // From each of four roads to each of the three others.
    assert_eq!(x.incoming.len(), 12);
    assert_eq!(x.outgoing.len(), 12);
    // The node at the centre has lost its segments.
    assert!(road.nodes.get(&center).incoming.is_empty());
    assert!(road.nodes.get(&center).outgoing.is_empty());
    // The road from the east ends 8 m before the centre, in its lane: heading
    // west, to the right is the north.
    let from_east = road.segments.get(&Id::new(0));
    assert_eq!(position(&road, from_east.to), Vec3::new(INTERSECTION_RADIUS, LANE_OFFSET, 0));
    // The road to the east starts 8 m after the centre, in its lane.
    let to_east = road.segments.get(&Id::new(1));
    assert_eq!(position(&road, to_east.from), Vec3::new(INTERSECTION_RADIUS, -LANE_OFFSET, 0));
    // Their other ends were moved a lane's offset to the right of the line
    // from the old end to the node on the rim.
    let old_end = Vec3::from_units(20, 0, 0);
    let inbound = position(&road, from_east.to).minus(old_end).normalized();
    let start = old_end.plus(inbound.right().scaled(LANE_OFFSET));
    assert_eq!(position(&road, from_east.from), start);
    assert_eq!(from_east.length, start.distance(position(&road, from_east.to)));
    let outbound = old_end.minus(position(&road, to_east.from)).normalized();
    let end = old_end.plus(outbound.right().scaled(LANE_OFFSET));
    assert_eq!(position(&road, to_east.to), end);
    // Both lie to the right of their direction: north of the axis inbound,
    // south of it outbound, and about 12 m from the rim.
    assert!(start.y > 0 && end.y < 0);
    assert!((from_east.length - from_int(12)).abs() < from_ratio(1, 2));
    for edge in edges {
        assert!(road.nodes.get(&edge).incoming.is_empty());
        assert!(road.nodes.get(&edge).outgoing.is_empty());
    }
}

#[test]
fn the_paths_across_are_straight_right_and_left() {
    let (mut road, _, _) = four_way(YieldResolver::RightOfWay);
    road.finalize();
    let x = road.intersections.get(&Id::new(0));
    let mut straight = 0;
    let mut right = 0;
    let mut left = 0;
    for (k, id) in x.incoming.iter().enumerate() {
        let s = road.segments.get(id);
        assert_eq!(s.speed_limit, from_int(5));
        let from = position(&road, s.from);
        let to = position(&road, s.to);
        assert_eq!(s.length, s.geometry.length(from, to));
        // A vehicle enters the path with the heading of the road it comes by.
        let heading = x.entry_directions[k];
        assert_eq!(heading.length(), ONE);
        match s.turn_type {
            TurnType::Straight => {
                straight += 1;
                assert_eq!(s.geometry, SegmentGeometry::Straight);
                assert_eq!(s.length, from_int(16));
            }
            TurnType::Right(sharpness) => {
                right += 1;
                assert_eq!(sharpness, ONE);
                match s.geometry {
                    SegmentGeometry::Curved { radius, clockwise, .. } => {
                        assert!(clockwise);
                        // The inner lane: 8 m less the offset of the lane.
                        assert_eq!(radius, INTERSECTION_RADIUS - LANE_OFFSET);
                    }
                    SegmentGeometry::Straight => panic!("a right turn is an arc"),
                }
            }
            TurnType::Left(sharpness) => {
                left += 1;
                assert_eq!(sharpness, ONE);
                match s.geometry {
                    SegmentGeometry::Curved { radius, clockwise, .. } => {
                        assert!(!clockwise);
                        assert_eq!(radius, INTERSECTION_RADIUS + LANE_OFFSET);
                    }
                    SegmentGeometry::Straight => panic!("a left turn is an arc"),
                }
            }
            _ => panic!("no roundabout here"),
        }
    }
    assert_eq!((straight, right, left), (4, 4, 4));
}

#[test]
fn crossing_paths_are_recorded_both_ways() {
    let (mut road, _, _) = four_way(YieldResolver::RightOfWay);
    road.finalize();
    let x = road.intersections.get(&Id::new(0));
    check_conflicts_mutual(x);
    assert!(!x.conflicts.is_empty());
    let straights: Vec<Id<Segment>> = x
        .incoming
        .iter()
        .copied()
        .filter(|id| road.segments.get(id).turn_type == TurnType::Straight)
        .collect();
    let heading = |id: &Id<Segment>| {
        let s = road.segments.get(id);
        position(&road, s.to).minus(position(&road, s.from)).normalized()
    };
    for a in &straights {
        for b in &straights {
            if a.id == b.id {
                continue;
            }
            // Straight paths at right angles cross; opposite ones run in
            // lanes 3.5 m apart and do not.
            let crosses = heading(a).dot(heading(b)) == 0;
            assert_eq!(x.has_conflict(*a, *b), crosses);
        }
    }
}

#[test]
fn a_roundabout_has_ramps_and_a_circle() {
    let mut road = Road::new();
    let center = road.add_intersection_node(Vec3::from_units(0, 0, 0), YieldResolver::Roundabout);
    let east = road.add_edge_node(Vec3::from_units(40, 0, 0));
    let north = road.add_edge_node(Vec3::from_units(0, 40, 0));
    let west = road.add_edge_node(Vec3::from_units(-40, 0, 0));
    for edge in [east, north, west] {
        road.add_bidirectional(edge, center, from_int(10));
    }
    road.finalize();
    check_wiring(&road);
    let x = road.intersections.get(&Id::new(0));
    assert_eq!(x.yield_resolver, YieldResolver::Roundabout);
    assert_eq!(x.edge_nodes.len(), 6);
    assert_eq!(x.incoming.len(), 9);
    let slow = from_ratio(55, 10);
    let mut kinds = (0, 0, 0);
    for id in &x.incoming {
        let s = road.segments.get(id);
        assert_eq!(s.speed_limit, slow);
        match s.turn_type {
            TurnType::RoundaboutEntry => kinds.0 += 1,
            TurnType::RoundaboutCircle => {
                kinds.1 += 1;
                assert_eq!(
                    s.geometry,
                    SegmentGeometry::Curved {
                        center: Vec3::from_units(0, 0, 0),
                        radius: ROUNDABOUT_RADIUS,
                        clockwise: false,
                    }
                );
                // The nodes of the circle stand on the circle.
                for end in [s.from, s.to] {
                    let r = position(&road, end).length();
                    assert!((r - ROUNDABOUT_RADIUS).abs() <= 20);
                }
            }
            TurnType::RoundaboutExit => kinds.2 += 1,
            _ => panic!("only ramps and arcs on a roundabout"),
        }
    }
    assert_eq!(kinds, (3, 3, 3));
    // The rim stands a ramp's length outside the circle.
    let from_east = road.segments.get(&Id::new(0));
    assert_eq!(
        position(&road, from_east.to),
        Vec3::new(ROUNDABOUT_RADIUS + RAMP_LENGTH, LANE_OFFSET, 0)
    );
    assert!(road.nodes.get(&center).incoming.is_empty());
    // The circle is closed: every node on it has one arc in and one out.
    for id in &x.incoming {
        let s = road.segments.get(id);
        if s.turn_type == TurnType::RoundaboutCircle {
            let arcs_out = road
                .nodes
                .get(&s.to)
                .outgoing
                .iter()
                .filter(|o| road.segments.get(o).turn_type == TurnType::RoundaboutCircle)
                .count();
            assert_eq!(arcs_out, 1);
        }
    }
}

#[test]
fn on_a_roundabout_only_merging_paths_conflict() {
    let mut road = Road::new();
    let center = road.add_intersection_node(Vec3::from_units(0, 0, 0), YieldResolver::Roundabout);
    for (x, y) in [(40, 0), (0, 40), (-40, 0)] {
        let edge = road.add_edge_node(Vec3::from_units(x, y, 0));
        road.add_bidirectional(edge, center, from_int(10));
    }
    road.finalize();
    let x = road.intersections.get(&Id::new(0));
    check_conflicts_mutual(x);
    let mut merging = 0;
    for a in &x.incoming {
        for b in &x.incoming {
            let sa = road.segments.get(a);
            let sb = road.segments.get(b);
            let merges = |ramp: &Segment, arc: &Segment| {
                ramp.turn_type == TurnType::RoundaboutEntry
                    && arc.turn_type == TurnType::RoundaboutCircle
                    && ramp.to.id == arc.to.id
            };
            let expected = merges(sa, sb) || merges(sb, sa);
            assert_eq!(x.has_conflict(*a, *b), expected);
            if expected {
                merging += 1;
            }
        }
    }
    // Three ramps, each merging with one arc, each pair in both orders.
    assert_eq!(merging, 6);
}

#[test]
fn a_u_turn_gets_no_path() {
    // Two roads meet at a junction: from each one only the way on, not back.
    let mut road = Road::new();
    let center = road.add_intersection_node(Vec3::from_units(0, 0, 0), YieldResolver::RightOfWay);
    let east = road.add_edge_node(Vec3::from_units(30, 0, 0));
    let west = road.add_edge_node(Vec3::from_units(-30, 0, 0));
    road.add_bidirectional(east, center, from_int(10));
    road.add_bidirectional(west, center, from_int(10));
    road.finalize();
    check_wiring(&road);
    let x = road.intersections.get(&Id::new(0));
    assert_eq!(x.incoming.len(), 2);
    for id in &x.incoming {
        assert_eq!(road.segments.get(id).turn_type, TurnType::Straight);
    }
    assert!(x.conflicts.is_empty());
}

#[test]
fn the_demo_network_is_well_wired() {
    let road = test_intersection();
    check_wiring(&road);
    assert_eq!(road.intersections.len(), 4);
    for x in road.intersections.iter() {
        check_conflicts_mutual(x);
        assert_eq!(x.edge_nodes.len(), 8);
        assert_eq!(x.incoming.len(), 12);
    }
    for n in 0..4 {
        let node = road.nodes.get(&Id::new(n));
        assert!(node.incoming.is_empty() && node.outgoing.is_empty());
    }
    // Every segment is as long as its shape and its ends say.
    for segment in road.segments.iter() {
        let from = position(&road, segment.from);
        let to = position(&road, segment.to);
        assert_eq!(segment.length, segment.geometry.length(from, to));
        assert!(segment.length > 0);
    }
}

#[test]
fn the_ramps_of_a_roundabout_are_short_curves() {
    let mut road = Road::new();
    let center = road.add_intersection_node(Vec3::from_units(0, 0, 0), YieldResolver::Roundabout);
    for (x, y) in [(40, 0), (0, 40), (-40, 0), (0, -40)] {
        let edge = road.add_edge_node(Vec3::from_units(x, y, 0));
        road.add_bidirectional(edge, center, from_int(10));
    }
    road.finalize();
    check_wiring(&road);
    let x = road.intersections.get(&Id::new(0));
    assert_eq!(x.incoming.len(), 12);
    for (k, id) in x.incoming.iter().enumerate() {
        let s = road.segments.get(id);
        let from = position(&road, s.from);
        let to = position(&road, s.to);
        assert_eq!(s.length, s.geometry.length(from, to));
        match s.turn_type {
            TurnType::RoundaboutCircle => {
                // A quarter of a circle of 8 m: 4π m.
                assert!((s.length - 12_566_371).abs() <= 50);
                // Traffic on the circle runs counter-clockwise: at its start
                // an arc is entered at a right angle to the radius, to the
                // left of it.
                let radial = from.normalized();
                assert!(radial.cross_z(x.entry_directions[k]) > from_ratio(99, 100));
            }
            TurnType::RoundaboutEntry | TurnType::RoundaboutExit => {
                assert!(matches!(s.geometry, SegmentGeometry::Curved { .. }));
                assert!(from_int(8) < s.length && s.length < from_int(16));
                // A ramp joins the rim, 16 m out, and the circle, 8 m out.
                let (rim, circle) = if s.turn_type == TurnType::RoundaboutEntry {
                    (from, to)
                } else {
                    (to, from)
                };
                assert!((circle.length() - ROUNDABOUT_RADIUS).abs() <= 50);
                assert!(rim.length() > ROUNDABOUT_RADIUS + RAMP_LENGTH);
            }
            _ => panic!("only ramps and arcs on a roundabout"),
        }
    }
    // Each ramp onto the circle ends where one arc ends and another starts.
    for id in &x.incoming {
        let s = road.segments.get(id);
        if s.turn_type == TurnType::RoundaboutEntry {
            let merge = road.nodes.get(&s.to);
            assert_eq!(merge.incoming.len(), 2);
            assert_eq!(merge.outgoing.len(), 2);
        }
    }
}
