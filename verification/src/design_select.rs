//! Model-driven design selection.
//!
//! The search walks candidate arrays from the smallest on, tries the
//! column assignments inside each candidate, replicates the rows, and keeps
//! the first design where every requested term is estimable.
pub mod assign;
pub mod candidates;
pub mod cells;
pub mod guard;
pub mod laws;
pub mod orthogonal;
pub mod render;
pub mod search;

pub use assign::{assignments, ASSIGNMENT_CAP};
pub use cells::{build_cells, full_factorial, replicate_combinations, term_df, union_model};
pub use guard::{can_build, can_list};
pub use render::render;
pub use search::{attempt_from, select, select_from, Refusal, SelectError, SelectOpts, Selection};
