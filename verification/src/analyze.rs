//! The decisions of the analysis: what was observed, which columns each fit
//! takes, how terms are pooled and judged, which cells are predicted and
//! recommended, and how groups are resampled.
//!
//! Floating-point numbers stand here as the 64 bits that represent them.
pub mod observe;
pub mod groups;
pub mod columns;
pub mod pooling;
pub mod readings;
pub mod grid;
pub mod bootstrap;
pub mod stages;
pub mod walk;
pub mod laws;
