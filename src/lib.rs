//! Aggregation of coding-style diagnostics: parsing of the analysis tool's
//! raw lines, ignore-list suppression, canonical ordering with merging of
//! repeated findings, and rendering of the terminal report.

pub mod canon;
pub mod diagnostic;
pub mod ignore;
pub mod package;
pub mod parse;
pub mod paths;
pub mod report;
pub mod shared;
pub mod text;
