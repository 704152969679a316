//! Approximate matching of a spoken transcript against the known command
//! names.

pub mod distance;
pub mod fuzzy;
pub mod jaro;
pub mod levenshtein;
