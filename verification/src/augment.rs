//! Augments an existing design with extra runs that resolve an alias or sharpen
//! a chosen interaction, without discarding completed results.
pub mod args;
pub mod candidates;
pub mod greedy;
pub mod ids;
pub mod laws;
pub mod output;
pub mod progress;
pub mod session;
pub mod table;
pub mod targets;

pub use args::AugmentArgs;
pub use candidates::{candidate_cells, Candidates, CANDIDATE_CAP};
pub use greedy::{best_candidate, choose_runs, target_columns, Choice, Gain};
pub use ids::{
    collect_units, parse_id, plan_ids, sequence_fits, unit_key, unit_numbers_in_range, IdPlan, Units,
};
pub use output::{
    assign_units, augmented_records, estimability_text, experiments_in_range, new_cell_text,
    next_experiment, record_augmentation,
};
pub use progress::{
    combinations_in_range, opening_text, target_names, targets_met, targets_text, widened_text,
};
pub use session::{has_room, open_augmentation, write_up, Opening, WriteUp};
pub use table::{base_cells, is_complete, level_index, read_table, row_cell, Table};
pub use targets::{added_terms, target_label, target_labels, target_terms, union_model};
