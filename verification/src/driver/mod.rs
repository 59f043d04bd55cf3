//! The per-tick driver pipeline and what it decides with.

pub mod blinker;
pub mod gap;
pub mod idm;
pub mod occupancy;
pub mod pathfinding;
pub mod vehicle;
pub mod yielding;

pub use blinker::{update_blinkers, Blinker};
pub use gap::{apply_gap_acceptance, GapAcceptance};
pub use idm::{apply_idm, Idm};
pub use occupancy::{update_occupancy, Occupant, SegmentOccupancy};
pub use pathfinding::next_segment_toward;
pub use vehicle::{
    move_and_despawn_vehicles, spawn_vehicles, PlayerControlled, Vehicle, DEFAULT_CAR_LENGTH,
    DEFAULT_CAR_WIDTH,
};
pub use yielding::{TurnType, YieldResolver};
