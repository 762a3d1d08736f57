//! Verified core of a localization housekeeping tool.
//!
//! The library scans string-table files of the form `"key" = "value";`,
//! classifies their paths into (logical group, language) pairs, checks that
//! every language variant of a group carries the same key set, and renders
//! the placeholder lines that bring a lagging variant up to date.  All file
//! and directory I/O lives outside the library; every function here works on
//! plain strings and carries a proved contract.

pub mod localizable_model;
pub mod strutil;
pub mod parsing;
pub mod classify;
pub mod consistency;
pub mod grouping;
pub mod inject;
pub mod swiftgen;
pub mod reformat;
pub mod walker;
