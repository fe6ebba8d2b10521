//! A batch path tracer over a fixed-point scene model.
//!
//! Every scalar is a fixed-point number: an integer counting units of
//! `1 / ONE` (see `fixed`). All arithmetic is exact integer arithmetic, so
//! the contracts describe each rendered value precisely.
//!
//! - `fixed`: fixed-point scalars, integer square root, floor division
//! - `vec3`: vectors, reflection, refraction, random directions
//! - `ray`, `utils`: rays and parameter intervals
//! - `hittable`: spheres and the closest hit in a scene
//! - `material`: diffuse, metal and refracting surfaces
//! - `color`: gamma correction and quantization to bytes
//! - `camera`: projection, the path integrator, pixels, rows and images
//! - `scheduler`: reassembling rows computed out of order
pub mod fixed;
pub mod vec3;
pub mod utils;
pub mod ray;
pub mod color;
pub mod material;
pub mod hittable;
pub mod camera;
pub mod scheduler;
