//! Exact primal simplex on a dense tableau, Bresenham line rasterization, and
//! integer colour-blending rules, with their contracts proved by Verus.

pub mod bresenham;
pub mod img;
pub mod matrix;
pub mod rational;
pub mod simplex;
