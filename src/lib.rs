//! Finds TODO annotations in source lines, attributes them to the commits
//! that last touched them, and groups them for a report.

pub mod text;
pub mod parser;
pub mod attribution;
pub mod collect;
pub mod order;
pub mod group;
pub mod label;
pub mod laws;
