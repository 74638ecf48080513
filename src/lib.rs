//! Capture engine for a dual-screen handheld capture adapter: device bring-up
//! command planning, marker-based field assembly from the bulk stream, channel
//! splitting, and RGB565 pixel decoding.

pub mod assembler;
pub mod bringup;
mod buffer;
pub mod katsukity;
pub mod marker;
pub mod pixel;
pub mod pool;
pub mod split;

pub use assembler::{CaptureField, CaptureHandler};
pub use buffer::bytes_of;
pub use katsukity::Katsukity;
