//! A microscopic traffic simulation core: road-network construction, route
//! planning and the per-tick driver pipeline, over fixed-point arithmetic.
//!
//! A tick runs the stages in a fixed order: vehicles appear, the occupancy
//! index is built, gaps are checked, the driver model sets the speeds, and
//! the vehicles move, go on along their routes or leave.

pub mod arena;
pub mod conflicts;
pub mod driver;
pub mod expand;
pub mod finalize;
pub mod fixed;
pub mod geometry;
pub mod junction;
pub mod lanes;
pub mod random;
pub mod rewire;
pub mod road;
pub mod roundabout;
pub mod scenario;
pub mod spawner;
pub mod trig;
pub mod turns;
pub mod vector;

pub use arena::{Arena, Id};
pub use geometry::SegmentGeometry;
pub use road::{Intersection, Node, Road, Segment};
pub use scenario::test_intersection;
pub use spawner::{spawn_vehicles, VehicleSpawner};
pub use vector::Vec3;
