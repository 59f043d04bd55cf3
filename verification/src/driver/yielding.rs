//! Who goes first where two paths through an intersection cross.

use crate::driver::blinker::Blinker;
use crate::fixed::{abs_spec, clamp, fx_abs, fx_neg, fx_sub, mul_spec, neg_spec, sub_spec};
use crate::vector::Vec3;
use vstd::prelude::*;

verus! {

/// The arrival order of a vehicle that has not reached a waiting zone yet.
pub const NO_ARRIVAL: u64 = 0xffff_ffff_ffff_ffff;

/// Two vehicles that have both waited longer than this are served in order
/// of arrival, whatever their directions: half a second.
pub const DEADLOCK_THRESHOLD: i64 = 500_000;

/// The magnitude that the cross product of two headings must exceed for one
/// of them to count as coming from the side.
pub const SIDE_THRESHOLD: i64 = 300_000;

/// The difference in turn sharpness below which two turns count as alike.
pub const PATH_THRESHOLD: i64 = 100_000;

/// What a segment asks of a vehicle that drives it.
#[derive(Clone, Copy, Debug, PartialEq, Eq, Structural, Hash)]
pub enum TurnType {
    Straight,
    /// A right turn, with the magnitude of the cross product of the headings
    /// before and after it.
    Right(i64),
    /// A left turn, with the same magnitude.
    Left(i64),
    RoundaboutEntry,
    RoundaboutCircle,
    RoundaboutExit,
}

impl TurnType {
    /// The signed sharpness of the turn: negative for a right turn, zero for
    /// no turn, positive for a left turn. With traffic on the right the more
    /// negative value is the shorter way across.
    pub open spec fn cross_spec(self) -> i64 {
        match self {
            TurnType::Right(m) => neg_spec(abs_spec(m)),
            TurnType::Left(m) => abs_spec(m),
            _ => 0,
        }
    }

    pub open spec fn blinker_spec(self) -> Blinker {
        match self {
            TurnType::Right(m) => if abs_spec(m) > SIDE_THRESHOLD {
                Blinker::Right
            } else {
                Blinker::Off
            },
            TurnType::Left(m) => if abs_spec(m) > SIDE_THRESHOLD {
                Blinker::Left
            } else {
                Blinker::Off
            },
            _ => Blinker::Off,
        }
    }

    pub fn cross(&self) -> (r: i64)
        ensures
            r == self.cross_spec(),
    {
        match self {
            TurnType::Right(m) => fx_neg(fx_abs(*m)),
            TurnType::Left(m) => fx_abs(*m),
            _ => 0,
        }
    }

    /// The indicator that announces the turn; none for a slight one.
    pub fn blinker(&self) -> (r: Blinker)
        ensures
            r == self.blinker_spec(),
    {
        match self {
            TurnType::Right(m) => if fx_abs(*m) > SIDE_THRESHOLD {
                Blinker::Right
            } else {
                Blinker::Off
            },
            TurnType::Left(m) => if fx_abs(*m) > SIDE_THRESHOLD {
                Blinker::Left
            } else {
                Blinker::Off
            },
            _ => Blinker::Off,
        }
    }
}

/// The rule by which an intersection orders the vehicles that approach it.
#[derive(Clone, Copy, Debug, PartialEq, Eq, Structural, Hash)]
pub enum YieldResolver {
    /// Yield to the vehicle that comes from the right.
    RightOfWay,
    /// Traffic on the circle goes before traffic that enters it.
    Roundabout,
}

impl Default for YieldResolver {
    fn default() -> (r: YieldResolver)
        ensures
            r == YieldResolver::RightOfWay,
    {
        YieldResolver::RightOfWay
    }
}

/// Priority by the order of arrival, the turn and the heading alone.
pub open spec fn right_of_way_spec(
    my_turn: TurnType,
    my_direction: Vec3,
    my_arrival: u64,
    my_waiting_time: i64,
    their_turn: TurnType,
    their_direction: Vec3,
    their_arrival: u64,
    their_waiting_time: i64,
) -> bool {
    let side = my_direction.cross_z_spec(their_direction);
    let my_path = my_turn.cross_spec();
    let their_path = their_turn.cross_spec();
    if their_arrival == NO_ARRIVAL && my_arrival != NO_ARRIVAL {
        true
    } else if my_arrival == NO_ARRIVAL && their_arrival != NO_ARRIVAL {
        false
    } else if my_waiting_time > DEADLOCK_THRESHOLD && their_waiting_time > DEADLOCK_THRESHOLD {
        my_arrival < their_arrival
    } else if side < -SIDE_THRESHOLD {
        true
    } else if side > SIDE_THRESHOLD {
        false
    } else if abs_spec(sub_spec(my_path, their_path)) > PATH_THRESHOLD {
        my_path < their_path
    } else {
        my_arrival < their_arrival
    }
}

impl YieldResolver {
    /// Whether the vehicle described first goes before the one described
    /// second, where their paths through the intersection cross.
    pub open spec fn has_priority_spec(
        self,
        my_turn: TurnType,
        my_direction: Vec3,
        my_arrival: u64,
        my_waiting_time: i64,
        their_turn: TurnType,
        their_direction: Vec3,
        their_arrival: u64,
        their_waiting_time: i64,
    ) -> bool {
        if self is Roundabout && my_turn is RoundaboutCircle && their_turn is RoundaboutEntry {
            true
        } else if self is Roundabout && my_turn is RoundaboutEntry
            && their_turn is RoundaboutCircle {
            false
        } else {
            right_of_way_spec(
                my_turn,
                my_direction,
                my_arrival,
                my_waiting_time,
                their_turn,
                their_direction,
                their_arrival,
                their_waiting_time,
            )
        }
    }

    pub fn has_priority(
        &self,
        my_turn: TurnType,
        my_direction: Vec3,
        my_arrival: u64,
        my_waiting_time: i64,
        their_turn: TurnType,
        their_direction: Vec3,
        their_arrival: u64,
        their_waiting_time: i64,
    ) -> (r: bool)
        ensures
            r == self.has_priority_spec(
                my_turn,
                my_direction,
                my_arrival,
                my_waiting_time,
                their_turn,
                their_direction,
                their_arrival,
                their_waiting_time,
            ),
    {
        if let YieldResolver::Roundabout = self {
            if let TurnType::RoundaboutCircle = my_turn {
                if let TurnType::RoundaboutEntry = their_turn {
                    return true;
                }
            }
            if let TurnType::RoundaboutEntry = my_turn {
                if let TurnType::RoundaboutCircle = their_turn {
                    return false;
                }
            }
        }
        if their_arrival == NO_ARRIVAL && my_arrival != NO_ARRIVAL {
            return true;
        }
        if my_arrival == NO_ARRIVAL && their_arrival != NO_ARRIVAL {
            return false;
        }
        if my_waiting_time > DEADLOCK_THRESHOLD && their_waiting_time > DEADLOCK_THRESHOLD {
            return my_arrival < their_arrival;
        }
        let side = my_direction.cross_z(their_direction);
        if side < -SIDE_THRESHOLD {
            return true;
        }
        if side > SIDE_THRESHOLD {
            return false;
        }
        let my_path = my_turn.cross();
        let their_path = their_turn.cross();
        if fx_abs(fx_sub(my_path, their_path)) > PATH_THRESHOLD {
            return my_path < their_path;
        }
        my_arrival < their_arrival
    }
}

/// The side on which one heading sees another is the opposite of the side on
/// which the other sees it.
pub proof fn lemma_cross_z_antisymmetric(a: Vec3, b: Vec3)
    ensures
        b.cross_z_spec(a) == -a.cross_z_spec(b),
{
    reveal(mul_spec);
    assert(a.x * b.y == b.y * a.x) by (nonlinear_arith);
    assert(a.y * b.x == b.x * a.y) by (nonlinear_arith);
    assert(mul_spec(a.x, b.y) == mul_spec(b.y, a.x));
    assert(mul_spec(a.y, b.x) == mul_spec(b.x, a.y));
    let p = mul_spec(a.x, b.y);
    let q = mul_spec(a.y, b.x);
    assert(clamp(q - p) == -clamp(p - q));
}

/// Of two vehicles at most one has priority over the other, under either
/// rule and whatever their state.
pub proof fn lemma_priority_antisymmetric(
    resolver: YieldResolver,
    a_turn: TurnType,
    a_direction: Vec3,
    a_arrival: u64,
    a_waiting_time: i64,
    b_turn: TurnType,
    b_direction: Vec3,
    b_arrival: u64,
    b_waiting_time: i64,
)
    requires
        resolver.has_priority_spec(
            a_turn,
            a_direction,
            a_arrival,
            a_waiting_time,
            b_turn,
            b_direction,
            b_arrival,
            b_waiting_time,
        ),
    ensures
        !resolver.has_priority_spec(
            b_turn,
            b_direction,
            b_arrival,
            b_waiting_time,
            a_turn,
            a_direction,
            a_arrival,
            a_waiting_time,
        ),
{
    lemma_cross_z_antisymmetric(a_direction, b_direction);
    let pa = a_turn.cross_spec();
    let pb = b_turn.cross_spec();
    assert(abs_spec(sub_spec(pa, pb)) == abs_spec(sub_spec(pb, pa)));
}

} // verus!
