//! Parser and display model for textual cost-centre profiling reports.
//!
//! A report has three sections: a run header, a flat per-cost-centre summary,
//! and a hierarchical "extended" summary whose call tree is encoded only by
//! leading indentation. The parser reconstructs that tree in a single forward
//! pass with one row of lookahead.
pub mod parser;
pub mod ui;
