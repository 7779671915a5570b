//! Deterministic, floating-point-free renderer of a procedural landscape.
//!
//! A camera position and heading and a light direction, seven plain
//! integers in all, drive a per-pixel raymarching pipeline built on Q8.8
//! fixed-point arithmetic: angle lookup tables, camera ray projection, a
//! ground-plane hit point, and sky/terrain shading, written row-major
//! into a flat RGB byte buffer of the fixed 320x200 viewport.
//!
//! - [`math`] holds the fixed-point kernel: integer square root,
//!   fixed-point multiply and divide, dot product, magnitude and
//!   normalization of integer 3-vectors.
//! - [`tables`] holds the 256-entry sine table and its phase-shifted
//!   cosine lookup.
//! - [`render`] turns pixel positions into ray directions, hit points
//!   and colors, and renders the whole frame.
//!
//! Every byte of the frame is pinned by contract to a specification
//! function of the seven inputs, so the output is deterministic down to
//! the intentional two's-complement wraparound of the color channels.

pub mod math;
pub mod render;
pub mod tables;
