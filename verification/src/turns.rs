//! The paths across a plain intersection: for each arriving road and each
//! leaving road, whether a vehicle may go from the one to the other, and
//! along which line or arc.

use crate::arena::Id;
use crate::driver::yielding::TurnType;
use crate::fixed::{
    abs_spec, div_spec, fx_abs, fx_div, fx_mul, fx_neg, fx_sub, mul_spec, neg_spec, sub_spec,
    ONE,
};
use crate::geometry::SegmentGeometry;
use crate::junction::Approach;
use crate::road::{Node, Segment};
use crate::vector::Vec3;
use vstd::prelude::*;

verus! {

/// Headings whose dot product is below this are opposite: a U-turn, which
/// gets no path.
pub const U_TURN_DOT: i64 = -900_000;

/// Headings whose dot product is above this are the same: straight through.
pub const STRAIGHT_DOT: i64 = 950_000;

/// Two lines whose determinant is smaller than this in magnitude count as
/// parallel.
pub const PARALLEL_TOLERANCE: i64 = 100;

/// The speed limit on the paths across a plain intersection: 5 m/s.
pub const TURN_SPEED: i64 = 5_000_000;

/// The arc that leaves `start` at a right angle to `start_normal` and reaches `end` at a
/// right angle to `end_normal`: its centre is where the line through `start` along `start_normal`
/// meets the line through `end` along `end_normal`. Where the two lines are parallel
/// there is no such arc, and the path is straight.
#[verifier::opaque]
pub open spec fn arc_between_spec(start: Vec3, start_normal: Vec3, end: Vec3, end_normal: Vec3, clockwise: bool) -> SegmentGeometry {
    let det = sub_spec(mul_spec(start_normal.x, end_normal.y), mul_spec(start_normal.y, end_normal.x));
    if abs_spec(det) < PARALLEL_TOLERANCE {
        SegmentGeometry::Straight
    } else {
        let t = div_spec(
            sub_spec(
                mul_spec(sub_spec(end.x, start.x), end_normal.y),
                mul_spec(sub_spec(end.y, start.y), end_normal.x),
            ),
            det,
        );
        let center = start.plus_spec(start_normal.scaled_spec(t));
        SegmentGeometry::Curved { center, radius: start.minus_spec(center).length_spec(), clockwise }
    }
}

/// The normal of `direction` on the side of the centre of a turn: to the
/// right for a clockwise turn, to the left for the other.
pub open spec fn inward_spec(direction: Vec3, clockwise: bool) -> Vec3 {
    direction.right_spec().scaled_spec(
        if clockwise {
            ONE
        } else {
            neg_spec(ONE)
        },
    )
}

/// The path from `entry` to `exit` and what it asks of a vehicle; `None` for
/// a U-turn.
#[verifier::opaque]
pub open spec fn turn_spec(entry: Approach, exit: Approach) -> Option<(SegmentGeometry, TurnType)> {
    let dot = entry.direction.dot_spec(exit.direction);
    let side = entry.direction.cross_z_spec(exit.direction);
    if dot < U_TURN_DOT {
        None
    } else if dot > STRAIGHT_DOT {
        Some((SegmentGeometry::Straight, TurnType::Straight))
    } else {
        let clockwise = side < 0;
        Some(
            (
                arc_between_spec(
                    entry.position,
                    inward_spec(entry.direction, clockwise),
                    exit.position,
                    inward_spec(exit.direction, clockwise),
                    clockwise,
                ),
                if clockwise {
                    TurnType::Right(abs_spec(side))
                } else {
                    TurnType::Left(side)
                },
            ),
        )
    }
}

/// The segment across the intersection for the path `turn`, between the two
/// nodes planted for `entry` and `exit`.
pub open spec fn turn_segment_spec(
    entry: Approach,
    from: Id<Node>,
    exit: Approach,
    to: Id<Node>,
    turn: (SegmentGeometry, TurnType),
) -> Segment {
    Segment {
        from,
        to,
        speed_limit: TURN_SPEED,
        geometry: turn.0,
        turn_type: turn.1,
        length: turn.0.length_spec(entry.position, exit.position),
    }
}

/// The segments from one arriving road to the first `j` leaving roads, each
/// with the heading of a vehicle that enters it.
pub open spec fn turn_row_spec(
    entry: Approach,
    from: Id<Node>,
    exits: Seq<Approach>,
    ring: Seq<Id<Node>>,
    j: int,
) -> Seq<(Segment, Vec3)>
    decreases j,
{
    if j <= 0 {
        Seq::empty()
    } else {
        let before = turn_row_spec(entry, from, exits, ring, j - 1);
        match turn_spec(entry, exits[j - 1]) {
            Some(turn) => before.push(
                (turn_segment_spec(entry, from, exits[j - 1], ring[j - 1], turn), entry.direction),
            ),
            None => before,
        }
    }
}

/// The segments from the first `i` arriving roads to all leaving roads.
pub open spec fn turn_rows_spec(
    entries: Seq<Approach>,
    entry_ring: Seq<Id<Node>>,
    exits: Seq<Approach>,
    exit_ring: Seq<Id<Node>>,
    i: int,
) -> Seq<(Segment, Vec3)>
    decreases i,
{
    if i <= 0 {
        Seq::empty()
    } else {
        turn_rows_spec(entries, entry_ring, exits, exit_ring, i - 1) + turn_row_spec(
            entries[i - 1],
            entry_ring[i - 1],
            exits,
            exit_ring,
            exits.len() as int,
        )
    }
}

pub fn arc_between(start: Vec3, start_normal: Vec3, end: Vec3, end_normal: Vec3, clockwise: bool) -> (r: SegmentGeometry)
    ensures
        r == arc_between_spec(start, start_normal, end, end_normal, clockwise),
{
    reveal(arc_between_spec);
    let det = fx_sub(fx_mul(start_normal.x, end_normal.y), fx_mul(start_normal.y, end_normal.x));
    if fx_abs(det) < PARALLEL_TOLERANCE {
        SegmentGeometry::Straight
    } else {
        let t = fx_div(
            fx_sub(fx_mul(fx_sub(end.x, start.x), end_normal.y), fx_mul(fx_sub(end.y, start.y), end_normal.x)),
            det,
        );
        let center = start.plus(start_normal.scaled(t));
        SegmentGeometry::Curved { center, radius: start.minus(center).length(), clockwise }
    }
}

pub fn inward(direction: Vec3, clockwise: bool) -> (r: Vec3)
    ensures
        r == inward_spec(direction, clockwise),
{
    direction.right().scaled(
        if clockwise {
            ONE
        } else {
            fx_neg(ONE)
        },
    )
}

/// The path from `entry` to `exit`; `None` for a U-turn.
pub fn turn_between(entry: &Approach, exit: &Approach) -> (r: Option<(SegmentGeometry, TurnType)>)
    ensures
        r == turn_spec(*entry, *exit),
{
    proof {
        reveal(turn_spec);
    }
    let dot = entry.direction.dot(exit.direction);
    let side = entry.direction.cross_z(exit.direction);
    if dot < U_TURN_DOT {
        None
    } else if dot > STRAIGHT_DOT {
        Some((SegmentGeometry::Straight, TurnType::Straight))
    } else {
        let clockwise = side < 0;
        Some(
            (
                arc_between(
                    entry.position,
                    inward(entry.direction, clockwise),
                    exit.position,
                    inward(exit.direction, clockwise),
                    clockwise,
                ),
                if clockwise {
                    TurnType::Right(fx_abs(side))
                } else {
                    TurnType::Left(side)
                },
            ),
        )
    }
}

} // verus!
