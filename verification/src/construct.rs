//! Designs: the design file, the plan of the runs, the CSV rows and the sidecar.
pub mod check;
pub mod dialogue;
pub mod file;
pub mod grammar;
pub mod laws;
pub mod lines;
pub mod manifest;
pub mod plan;
pub mod settled;
pub mod types;

pub use crate::model::EstimabilityReport;
pub use dialogue::{Dialogue, Stage};
pub use types::{Augmentation, ConstructOpts, Design, ParsedDesign, Run, Setting};
pub use file::{apply_cli, file_lines, file_requests, parse_design_file};
pub use lines::{
    build_model, factor_line_request, parse_factor_line, parse_replicate, parse_unit,
    replicate_request, strip_comment,
};
pub use plan::{
    execution_order, new_design, plan_design, plan_runs, sidecar_path, table_header, table_record,
    unit_ids, DesignPlan,
};
