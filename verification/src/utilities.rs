//! Numbers, vectors, points and colours.

pub mod fixed;
pub mod p3d;
pub mod rgb;
pub mod vec3;
