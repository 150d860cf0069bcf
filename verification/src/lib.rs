//! Listing of the entries below a directory: every entry is classified as a
//! plain file, a directory or a text file, filtered by name and by content,
//! and optionally sorted. The library works on plain values; reading the
//! directories and writing the result is left to the caller.

pub mod arguments;
pub mod composition;
pub mod equivalence;
pub mod file_operations;
pub mod file_search;
pub mod occurrence;
pub mod output_strategies;
pub mod sorting;
pub mod text;
