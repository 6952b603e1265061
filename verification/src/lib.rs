//! Keeps documentation code blocks and repository code in sync, through comment
//! markers in the code.

pub mod apply;
pub mod apply_laws;
pub mod assembly_laws;
pub mod attribute_laws;
pub mod attributes;
pub mod block_laws;
pub mod bytes;
pub mod candidate_laws;
pub mod candidates;
pub mod change_laws;
pub mod check;
pub mod check_laws;
pub mod config;
pub mod docs;
pub mod edit_laws;
pub mod edits;
pub mod engines;
pub mod eval;
pub mod eval_laws;
pub mod extend_laws;
pub mod file_laws;
pub mod fill_laws;
pub mod fix_laws;
pub mod ignored;
pub mod lightbulb;
pub mod lines;
pub mod lookup_laws;
pub mod maps;
pub mod marker_laws;
pub mod markers;
pub mod matching;
pub mod matching_laws;
pub mod numbers;
pub mod option_laws;
pub mod options;
pub mod order_laws;
pub mod outcome_laws;
pub mod pattern_laws;
pub mod plan_laws;
pub mod prompt_laws;
pub mod record_laws;
pub mod repo;
pub mod repo_laws;
pub mod report;
pub mod report_laws;
pub mod rewrite_laws;
pub mod scans;
pub mod server;
pub mod server_laws;
pub mod similarity;
pub mod similarity_laws;
pub mod source;
pub mod source_laws;
pub mod summary_laws;
pub mod text;
pub mod text_laws;
pub mod wildcards;
pub mod word_laws;
