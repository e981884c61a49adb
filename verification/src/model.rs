//! Formulas, deviation coding and estimability.
pub mod estimability;
pub mod formula;
pub mod laws;
pub mod matrix;
pub mod round_trip;

pub use estimability::{
    estimability, Estimability, EstimabilityReport, RankReport, TermEstimability,
};
pub use formula::{hierarchy_warnings, Model, Term};
pub use matrix::{model_matrix, Cell, ColumnInfo, ColumnSource, ModelMatrix, ReplicateRole, Unit};
