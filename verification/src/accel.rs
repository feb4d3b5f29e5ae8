//! Acceleration backends and their availability.

pub mod cuda;
pub mod native;
pub mod probe;
pub mod rocm;
pub mod target;
