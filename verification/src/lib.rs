//! Core logic of a Monte Carlo ray tracer: the decisions of the spatial
//! index, of the path integrator and of the render driver, stated over exact
//! values and proved.

pub mod aabb;
pub mod assembly;
pub mod bounds;
pub mod bvh;
pub mod config;
pub mod framebuffer;
pub mod hittable;
pub mod material;
mod random;
pub mod rect;
pub mod rows;
pub mod scene;
pub mod sphere;
pub mod texture;
pub mod tracer;
pub mod util;
