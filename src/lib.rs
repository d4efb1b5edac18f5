//! Relational operators over in-memory sequences: duplicate removal,
//! grouping by a derived key, and grouping with named aggregations.
pub mod keymap;
pub mod ranges;
pub mod model;
pub mod aggregate;
pub mod remap;
pub mod laws;
