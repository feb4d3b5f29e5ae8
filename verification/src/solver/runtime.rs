//! How a run settles its source, backend and kernel, and reads the clock.

pub mod clock;
pub mod orchestrator;
pub mod resolver;
