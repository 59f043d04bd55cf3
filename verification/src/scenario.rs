//! A network to try the simulation on.

use crate::driver::yielding::YieldResolver;
use crate::road::Road;
use crate::vector::Vec3;
use vstd::prelude::*;

verus! {

/// From one intersection of the grid to the next: 80 m.
pub const SPACING: i64 = 80;

/// The speed limit on the roads of the grid: 13.9 m/s, or 50 km/h.
pub const ROAD_SPEED: i64 = 13_900_000;

/// Four intersections in a square, joined to each other and each to two
/// nodes at the edge of the map, with a road in both directions wherever
/// two of them are joined; expanded and ready for driving.
#[verifier::rlimit(40)]
pub fn test_intersection() -> (r: Road)
    ensures
        r.wf(),
        r.intersections@.len() == 4,
        forall|n: int|
            0 <= n < 4 ==> (#[trigger] r.nodes@[n]).incoming@.len() == 0
                && r.nodes@[n].outgoing@.len() == 0,
{
    let half = SPACING / 2;
    let far = SPACING + SPACING / 2;
    let mut road = Road::new();
    let north_west = road.add_intersection_node(
        Vec3::from_units(-half, half, 0),
        YieldResolver::RightOfWay,
    );
    let north_east = road.add_intersection_node(
        Vec3::from_units(half, half, 0),
        YieldResolver::RightOfWay,
    );
    let south_west = road.add_intersection_node(
        Vec3::from_units(-half, -half, 0),
        YieldResolver::RightOfWay,
    );
    let south_east = road.add_intersection_node(
        Vec3::from_units(half, -half, 0),
        YieldResolver::RightOfWay,
    );
    let edge_n1 = road.add_edge_node(Vec3::from_units(-half, far, 0));
    let edge_n2 = road.add_edge_node(Vec3::from_units(half, far, 0));
    let edge_s1 = road.add_edge_node(Vec3::from_units(-half, -far, 0));
    let edge_s2 = road.add_edge_node(Vec3::from_units(half, -far, 0));
    let edge_w1 = road.add_edge_node(Vec3::from_units(-far, half, 0));
    let edge_w2 = road.add_edge_node(Vec3::from_units(-far, -half, 0));
    let edge_e1 = road.add_edge_node(Vec3::from_units(far, half, 0));
    let edge_e2 = road.add_edge_node(Vec3::from_units(far, -half, 0));
    road.add_bidirectional(north_west, north_east, ROAD_SPEED);
    road.add_bidirectional(south_west, south_east, ROAD_SPEED);
    road.add_bidirectional(north_west, south_west, ROAD_SPEED);
    road.add_bidirectional(north_east, south_east, ROAD_SPEED);
    road.add_bidirectional(edge_n1, north_west, ROAD_SPEED);
    road.add_bidirectional(edge_n2, north_east, ROAD_SPEED);
    road.add_bidirectional(edge_s1, south_west, ROAD_SPEED);
    road.add_bidirectional(edge_s2, south_east, ROAD_SPEED);
    road.add_bidirectional(edge_w1, north_west, ROAD_SPEED);
    road.add_bidirectional(edge_w2, south_west, ROAD_SPEED);
    road.add_bidirectional(edge_e1, north_east, ROAD_SPEED);
    road.add_bidirectional(edge_e2, south_east, ROAD_SPEED);
    let ghost built = road;
    proof {
        assert(built.nodes@.len() == 12);
        assert(built.nodes@[0].incoming@.len() == 4 && built.nodes@[0].outgoing@.len() == 4);
        assert(built.nodes@[1].incoming@.len() == 4 && built.nodes@[1].outgoing@.len() == 4);
        assert(built.nodes@[2].incoming@.len() == 4 && built.nodes@[2].outgoing@.len() == 4);
        assert(built.nodes@[3].incoming@.len() == 4 && built.nodes@[3].outgoing@.len() == 4);
        assert(forall|n: int| 4 <= n < 12 ==> (#[trigger] built.nodes@[n]).incoming@.len() == 1);
        lemma_four_junctions(&built);
    }
    road.finalize();
    road
}

/// A network of twelve nodes of which the first four are the junctions has
/// four junctions.
proof fn lemma_four_junctions(road: &Road)
    requires
        road.nodes@.len() == 12,
        forall|n: int| 0 <= n < 4 ==> #[trigger] road.is_junction(n),
        forall|n: int| 4 <= n < 12 ==> !#[trigger] road.is_junction(n),
    ensures
        road.junctions().len() == 4,
{
    reveal_with_fuel(Road::junctions_upto, 13);
}

} // verus!
