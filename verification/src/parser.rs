//! The report grammar: lexing, numeric conversion, the three sections, and
//! the indentation-driven tree builder for the extended summary.
pub mod lex;
pub mod num;
pub mod header;
pub mod summary;
pub mod tree;
pub mod prof;
pub mod ser;
pub mod roundtrip;

pub use lex::ParseError;
pub use lex::text_line;
pub use num::Decimal;
pub use num::parse_num;
pub use num::parse_num_u32;
pub use num::parse_num_u16;
pub use num::parse_num_u8;
pub use num::parse_num_decimal;
pub use header::TotalTime;
pub use header::TotalAlloc;
pub use header::Header;
pub use header::HeaderV;
pub use header::total_time;
pub use header::total_alloc;
pub use header::parse_header;
pub use summary::SummaryLine;
pub use summary::SummaryLineV;
pub use summary::Summary;
pub use summary::parse_summary_line;
pub use summary::parse_summary;
pub use summary::parse_summaries_sep;
pub use summary::parse_header_and_summary;
pub use tree::ExtendedSummaryLine;
pub use tree::ExtendedSummaryLineV;
pub use tree::DepthRow;
pub use tree::DepthRowV;
pub use tree::parse_extended_summary_line;
pub use tree::lex_rows;
pub use tree::RoseTree;
pub use tree::RoseTreeV;
pub use tree::ExtendedSummary;
pub use tree::parse_node;
pub use tree::build_children;
pub use tree::parse_extended_summary;
pub use prof::GHCProf;
pub use prof::GHCProfV;
pub use prof::parse_prof;
pub use prof::parse_prof_file;
pub use ser::serialize_prof;
pub use roundtrip::wf_prof;
pub use roundtrip::lemma_parse_gives_wf;
pub use roundtrip::lemma_canonical_roundtrip;
pub use roundtrip::lemma_parse_write_parse;
