//! A small ray caster for one fixed scene: a unit sphere, three coloured
//! point lights and a pinhole camera.
//!
//! Every number the renderer handles is an IEEE 754 binary32 value held by
//! its bit pattern in a `u32`. The arithmetic on these values is carried out
//! on integers and proved against an exact model of correct rounding, so the
//! whole way from pixel coordinates to the finished image is covered
//! by the contracts stated here.

pub mod arith;
pub mod color;
pub mod ieee;
pub mod render;
pub mod root;
pub mod rounding;
pub mod scalar;
pub mod scene;
pub mod vector;

pub use color::RGB;
pub use render::raytrace;
