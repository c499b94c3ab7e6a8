//! File discovery and filtering: the rules that decide which files of a
//! directory tree are collected, how their paths are reported, and a byte-level
//! sanitizer for the collected text.
pub mod path;
pub mod walk;
pub mod clean;
pub mod config;
pub mod output;
