//! Quadtree mosaic renderer.
//!
//! The library recursively partitions a rectangle of an RGBA pixel buffer,
//! computes the average color of each region, and outlines regions whose
//! summed average intensity exceeds a threshold into a second, same-sized
//! pixel buffer.

pub mod laws;
pub mod model;
pub mod render;
