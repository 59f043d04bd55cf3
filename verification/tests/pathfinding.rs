use simulation::driver::pathfinding::next_segment_toward;
use simulation::fixed::from_int;
use simulation::{Id, Node, Road, Segment, Vec3};

fn node(road: &mut Road, x: i64, y: i64) -> Id<Node> {
    road.add_node(Vec3::from_units(x, y, 0))
}

fn ids(route: &[Id<Segment>]) -> Vec<usize> {
    route.iter().map(|s| s.id).collect()
}

#[test]
fn no_route_to_where_one_is() {
    let mut road = Road::new();
    let a = node(&mut road, 0, 0);
    let b = node(&mut road, 10, 0);
    road.add_bidirectional(a, b, from_int(5));
    assert!(next_segment_toward(&road, a, a).is_none());
}

#[test]
fn no_route_against_the_direction() {
    let mut road = Road::new();
    let a = node(&mut road, 0, 0);
    let b = node(&mut road, 10, 0);
    road.add_segment(a, b, from_int(5));
    assert!(next_segment_toward(&road, b, a).is_none());
    let lonely = node(&mut road, 0, 10);
    assert!(next_segment_toward(&road, a, lonely).is_none());
    assert!(next_segment_toward(&road, lonely, a).is_none());
}

#[test]
fn one_segment_is_its_own_route() {
    let mut road = Road::new();
    let a = node(&mut road, 0, 0);
    let b = node(&mut road, 10, 0);
    let ab = road.add_segment(a, b, from_int(5));
    let (first, route) = next_segment_toward(&road, a, b).unwrap();
    assert_eq!(first.id, ab.id);
    assert_eq!(ids(&route), vec![ab.id]);
}

#[test]
fn the_route_has_the_fewest_hops() {
    // a → b → c → d, and a shortcut a → c.
    let mut road = Road::new();
    let a = node(&mut road, 0, 0);
    let b = node(&mut road, 10, 0);
    let c = node(&mut road, 20, 0);
    let d = node(&mut road, 30, 0);
    let ab = road.add_segment(a, b, from_int(5));
    let bc = road.add_segment(b, c, from_int(5));
    let cd = road.add_segment(c, d, from_int(5));
    let ac = road.add_segment(a, c, from_int(5));
    let (first, route) = next_segment_toward(&road, a, d).unwrap();
    assert_eq!(first.id, ac.id);
    assert_eq!(ids(&route), vec![ac.id, cd.id]);
    let (first, route) = next_segment_toward(&road, a, b).unwrap();
    assert_eq!(first.id, ab.id);
    assert_eq!(ids(&route), vec![ab.id]);
    let (_, route) = next_segment_toward(&road, b, d).unwrap();
    assert_eq!(ids(&route), vec![bc.id, cd.id]);
}

#[test]
fn a_route_may_lead_round_a_loop_back_to_a_later_node() {
    // a → b → c → a, and c → d: from b to a the way leads over c.
    let mut road = Road::new();
    let a = node(&mut road, 0, 0);
    let b = node(&mut road, 10, 0);
    let c = node(&mut road, 10, 10);
    let d = node(&mut road, 20, 10);
    road.add_segment(a, b, from_int(5));
    let bc = road.add_segment(b, c, from_int(5));
    let ca = road.add_segment(c, a, from_int(5));
    road.add_segment(c, d, from_int(5));
    let (first, route) = next_segment_toward(&road, b, a).unwrap();
    assert_eq!(first.id, bc.id);
    assert_eq!(ids(&route), vec![bc.id, ca.id]);
    assert!(next_segment_toward(&road, d, a).is_none());
}

#[test]
fn every_route_is_a_chain_of_segments() {
    // A ladder: two rails of five nodes, rungs in both directions.
    let mut road = Road::new();
    let mut top = Vec::new();
    let mut bottom = Vec::new();
    for k in 0..5 {
        top.push(node(&mut road, 10 * k, 10));
        bottom.push(node(&mut road, 10 * k, 0));
    }
    for k in 0..4 {
        road.add_segment(top[k], top[k + 1], from_int(5));
        road.add_segment(bottom[k + 1], bottom[k], from_int(5));
    }
    for k in 0..5 {
        road.add_bidirectional(top[k], bottom[k], from_int(5));
    }
    // From the left of the bottom rail to its right: up, along the top, down.
    let (first, route) = next_segment_toward(&road, bottom[0], bottom[4]).unwrap();
    assert_eq!(route.len(), 6);
    assert_eq!(first.id, route[0].id);
    let mut at = bottom[0].id;
    for segment in &route {
        let s = road.segments.get(segment);
        assert_eq!(s.from.id, at);
        at = s.to.id;
    }
    assert_eq!(at, bottom[4].id);
    // The other way round the bottom rail leads there directly.
    let (_, back) = next_segment_toward(&road, bottom[4], bottom[0]).unwrap();
    assert_eq!(back.len(), 4);
}
