//! Annotation-driven highlight-assertion checking.
//!
//! Source text may carry caret comments (`// ^ name`) that assert which
//! capture name a highlighting configuration assigns to the marked position
//! of the nearest preceding code line. This crate parses those annotations,
//! flattens a nested scope-event stream into a non-overlapping span index,
//! and verifies every assertion against that index.

pub mod flatten;
pub mod parse;
pub mod position;
pub mod report;
pub mod table;
pub mod web_ui;
