//! Small string helpers shared across the crate.

pub mod string;
