//! A half-edge triangle-mesh library: connectivity as dense integer handles,
//! ray picking classified into face/edge/vertex hits, and distance-bounded
//! region growth for morph weights.
//!
//! All geometry is carried in fixed-point integer coordinates: `SCALE` units
//! stand for one model unit, so positions, normals and ray data are plain
//! `i64` values and every arithmetic step is proved free of overflow.

mod construct;
mod intersect;
mod math;
mod mesh;
mod normals;
mod weights;

pub use construct::build_mesh;
pub use intersect::{intersect, Hit};
pub use math::Vec3;
pub use math::COORD_LIMIT;
pub use math::MAX_DIST_SQ;
pub use math::SCALE;
pub use mesh::{HalfEdge, Mesh, MeshError, Walker};
pub use weights::{compute_weights, falloff};
