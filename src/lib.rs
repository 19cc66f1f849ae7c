//! Samples per-process resource metrics from the kernel's process records
//! and keeps a history of them that can be rendered as JSON or as a table.
pub mod json;
pub mod log;
pub mod record;
mod sys;
pub mod text;
pub mod tokens;

pub use record::{Stat, IO, MalformedRecord};
