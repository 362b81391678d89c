//! An interactive 2D pixel-buffer editor core: rectangular "viewport"
//! transform objects (position, rotation, uniform scale, opacity) are placed,
//! dragged, rotated, scaled and deleted over a fixed-resolution RGBA
//! framebuffer, and each frame resamples the previous frame through every
//! live transform, producing a recursive video-feedback visual.
//!
//! All geometry is carried in signed fixed-point arithmetic: a coordinate,
//! scale factor or rotation entry is stored as a multiple of `1/FP`.

pub mod fixed;
pub mod geom;
pub mod grid;
pub mod object;
pub mod world;

pub use fixed::FP;
