//! A small offline ray tracer over fixed-point coordinates.
//!
//! Geometry is carried in signed fixed-point numbers with a scale of
//! 65536 units per 1.0, so every arithmetic step has an exact integer
//! meaning that the contracts state and Verus checks. The pipeline is the
//! classic one: a pinhole camera casts one ray per pixel, the scene is a
//! list of spheres, the nearest hit is shaded by Lambertian diffuse terms
//! summed over point lights, and a miss yields a fixed background color.

use vstd::prelude::*;

pub mod fixed;
pub mod frame;
pub mod scene;
pub mod tracing;

verus! {

/// Units per 1.0 of world space: all coordinates, radii, intensities and
/// colors are integers counted in 1/65536ths.
pub const SCALE: i128 = 65536;

/// Magnitude bound on scene data: every coordinate of a sphere center or
/// light position, every radius, intensity and color channel handed to the
/// tracer must fit in `[-COORD_MAX, COORD_MAX]` (about 16.8 million world
/// units), which keeps every intermediate product inside `i128`.
pub const COORD_MAX: i128 = 0x100_0000_0000;

/// Upper bound on any intersection distance the tracer can report for
/// well-formed scenes; derived from `COORD_MAX` and the unit direction
/// bound.
pub const DIST_MAX: i128 = 0x4000_0000_0000;

/// Most lights a scene may carry, so that the summed diffuse intensity
/// stays inside `i128`.
pub const LIGHTS_MAX: usize = 0x10_0000;

/// Largest framebuffer side length accepted by the frame generator.
pub const SIDE_MAX: usize = 0x8000;

/// Largest accepted tangent of half the field of view (in fixed-point
/// units), i.e. fields of view up to nearly a straight angle.
pub const TAN_MAX: i128 = 0x1_0000_0000;

} // verus!
