//! Zenithsiz's Disk Usage: the archive format, its reader and writer, and
//! the logic that analyzes and compares archives.

pub mod analyze;
pub mod archive;
pub mod args;
pub mod compare;
pub mod find_duplicates;
pub mod scan;
pub mod stats;
pub mod tree_display;
pub mod util;
