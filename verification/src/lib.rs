//! Deterministic soft-body physics on fixed-point numbers: point masses and
//! springs, shapes with a shape-memory frame, point-in-polygon collision
//! detection and impulse resolution, and ear-clipping triangulation.
//!
//! Every number is a [`Fixed`]: a count of thousandths that saturates
//! instead of overflowing. The contracts describe each result exactly, as
//! integer arithmetic on those counts, and the geometric decisions (which
//! side of a line, inside or outside) are taken without rounding.
pub mod area;
pub mod collision;
pub mod components;
pub mod config;
pub mod dynamics;
pub mod exchange;
pub mod fixed;
pub mod geometry;
pub mod interior;
pub mod math;
pub mod mesh;
pub mod segment;
pub mod shape;
pub mod vector;
pub mod winding;

pub use collision::{
    closest_point_on_line, point_shape_collision, resolve_point_line, shape_shape_collision,
    Collision,
};
pub use components::{PointMass, Spring};
pub use config::Config;
pub use fixed::Fixed;
pub use math::{cross, inverse_lerp_f32, inverse_lerp_vec, lerp_f32, lerp_vec};
pub use mesh::SoftMesh;
pub use shape::Shape;
pub use vector::Vec2;
