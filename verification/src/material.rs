//! The closed set of reflectance strategies a material can use.
//!
//! The strategies themselves sample bounce directions with floating-point
//! trigonometry and live with the renderer; these marker types are the
//! strategy names the data model carries around.

use vstd::prelude::*;

verus! {

/// Uniform-hemisphere sampling: a direction drawn uniformly on the unit
/// sphere and flipped to the hemisphere of the surface normal.
#[derive(Debug, Clone, Copy, Default)]
pub struct UniformDiffuse;

/// Cosine-weighted approximation: the uniform sample summed with the normal
/// and renormalized, biasing bounces toward the normal.
#[derive(Debug, Clone, Copy)]
pub struct Lambertian;

} // verus!
