//! Parsing, aggregation and ordering of allocation-accounting reports.
//!
//! A report is line-oriented text: each data line holds a size, a call count
//! and a slash-delimited tag naming the call site. The library parses it into
//! records, totals them, aggregates them by tag prefix into a tree, and
//! filters, sorts and cuts the flat list of records for display.

pub mod aggregate;
pub mod cli;
pub mod laws;
pub mod model;
pub mod order;
pub mod parse;
pub mod pipeline;
pub mod tree;
