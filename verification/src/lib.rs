//! Boyer-Moore exact-match line search.
//!
//! The crate locates every occurrence of a pattern inside a text and can
//! report the lines that contain those occurrences.  The pattern is
//! preprocessed into a bad-character table and a strong good-suffix shift
//! table; the search loop combines the two heuristics to skip several
//! alignments per comparison.  Pattern and text are treated as sequences of
//! Unicode scalar values, and the table-driven searches are restricted to
//! scalar values below 256 (the fixed alphabet of the bad-character table).

mod chars;
mod config;
mod engine;
mod lines;
mod safety;
mod tables;

pub use config::Config;
pub use config::Flag;
pub use config::pad_to;
pub use config::spaces;
pub use engine::SearchMetrics;
pub use engine::Strategy;
pub use engine::badchar_table_spec;
pub use engine::badcharsearch;
pub use engine::boyer_moore_search;
pub use engine::engine_step;
pub use engine::engine_wf;
pub use engine::good_suffix_shift_spec;
pub use engine::goodsuffixsearch;
pub use engine::gs_shifts_safe;
pub use engine::is_match;
pub use engine::lemma_badchar_no_skip_match;
pub use engine::lemma_badchar_no_skip_mismatch;
pub use engine::lemma_viable_from_match;
pub use engine::match_advance;
pub use engine::mismatch_advance;
pub use engine::scan_back;
pub use engine::search_spec;
pub use engine::spec_max;
pub use engine::viable_shift;
pub use engine::zero_table;
pub use lines::boyer_moore_lines;
pub use lines::boyer_moore_lines_case_insensitive;
pub use lines::contains_at;
pub use lines::find_newline;
pub use lines::indices_to_lines;
pub use lines::lemma_line_index_bound;
pub use lines::lines_of;
pub use lines::lower_char;
pub use lines::lower_seq;
pub use lines::matching_ci_of;
pub use lines::matching_of;
pub use lines::newline_count;
pub use lines::search;
pub use lines::search_case_insensitive;
pub use lines::seq_contains;
pub use lines::strip_cr;
pub use safety::lemma_good_suffix_safe;
pub use safety::occurs_at;
pub use safety::strong_viable;
pub use tables::badchar_table;
pub use tables::char_in_alphabet;
pub use tables::chars_in_alphabet;
pub use tables::completed_shift_table;
pub use tables::completer_state_wf;
pub use tables::completer_step;
pub use tables::last_occurrence;
pub use tables::lemma_badchar_rightmost;
pub use tables::lemma_table_construction_idempotent;
pub use tables::process_case_2;
pub use tables::strong_suffix_table;
pub use tables::suffix_state_wf;
pub use tables::suffix_step;
pub use tables::suffix_tables;
