//! Verified core of a Monte Carlo path tracer: the bounding volume hierarchy
//! (its construction, the surface area heuristic's choice of split, the
//! descent that finds a ray's candidates and the choice of the nearest hit),
//! the pixel buffer that the render accumulates into, the depth and emission
//! rules of the integrator, and the renderer settings.

pub mod img;
pub mod bvh;
pub mod nearest;
pub mod sah;
pub mod settings;
pub mod vector2;
pub mod math;
