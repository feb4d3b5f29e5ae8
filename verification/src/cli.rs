//! Entry points for a command line.

pub mod benchmark;
pub mod options;
pub mod run;
