//! A diff-and-highlight rendering engine: parses unified-diff text into
//! structured hunks, groups lines into typed sections, computes word-level
//! diffs for paired change blocks, and merges diff status with syntax
//! highlight spans into per-line fragment sequences.
pub mod branch;
pub mod command;
pub mod commit;
pub mod diff_status;
pub mod file;
pub mod file_diff;
pub mod file_diff_meta;
pub mod file_status;
pub mod hash;
pub mod highlight;
pub mod text;
pub mod upstream_track;
