//! A verified library for a tab-separated table of project records.
//!
//! Input rows name their columns in a header line, in any order; the library
//! maps each row onto a fixed logical schema, validates every field, filters
//! rows through a chain of predicates, optionally sorts by start date, and
//! renders the retained records back in the header's column order.

pub mod api;
pub mod date;
pub mod parser;
pub mod project;
pub mod storage;
pub mod test_util;
pub mod text;
