//! A recursive Monte Carlo ray tracer over saturating fixed-point
//! arithmetic.
//!
//! A camera sends rays through the pixels of a picture into a scene of
//! spheres. Each ray is followed from surface to surface, scattered by
//! the material it hits, until it leaves the scene, is absorbed, or has
//! scattered as often as the camera allows. The light it gathers on the
//! way is the colour of its sample, and the mean of a pixel's samples
//! is the colour of the pixel.
//!
//! All numbers are fixed-point scalars that never overflow. Random
//! choices come from a seeded stream, so a picture is a function of the
//! camera, the scene and the seed.

pub mod camera;
pub mod color;
pub mod fixed;
pub mod interval;
pub mod materials;
pub mod random;
pub mod ray;
pub mod sphere;
pub mod surface;
pub mod vec3;
pub mod world;
