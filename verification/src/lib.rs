//! A palette optimiser working on fixed-point scores.
//!
//! The crate evolves a palette of display colours so that every colour keeps
//! its distance from the others and satisfies per-colour constraints. All
//! scores are integers; callers choose the unit (for instance 2^-16 of a
//! perceptual unit) when they fill the lookup tables.

pub mod color;
pub mod metric;
pub mod optimizer;
pub mod pair_matrix;
pub mod score;
pub mod update;
