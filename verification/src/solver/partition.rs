//! The partition that persists between runs.

pub mod state;
