//! Lowering of logical query plans to physical ones for a streaming engine.
//!
//! [`lowering::lower_ir`] is the way in. [`model::lower`] says what it does.

pub mod advance;
pub mod answer;
pub mod finish;
pub mod ir;
pub mod laws;
pub mod lowering;
pub mod model;
pub mod operation_laws;
pub mod outcomes;
pub mod phys;
pub mod pieces;
pub mod protocol;
pub mod schema;
pub mod service_outcomes;
pub mod step;
pub mod store;
pub mod support;
pub mod support_laws;
pub mod survey;

pub use lowering::{can_lower, lower_ir, Lowering, Progress};
