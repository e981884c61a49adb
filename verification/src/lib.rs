//! Model-driven experiment design: orthogonal arrays, formula models, design
//! selection, augmentation and the decisions of the analysis.

pub mod analyze;
pub mod augment;
pub mod construct;
pub mod csv_text;
pub mod design_select;
pub mod error;
pub mod factor;
pub mod float;
pub mod reading;
pub mod report;
pub mod rng;
pub mod text;
pub mod tuples;
pub mod model;
pub mod oa;
