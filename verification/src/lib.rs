//! A verified directory-listing library.
//!
//! The library classifies directory entries, filters hidden ones, orders
//! them (directories first, then symlinks, then files, case-insensitively
//! by name), and renders them either as a terminal-width grid or as a
//! long-format listing with aligned owner, group and size columns.

pub mod entry;
pub mod error;
pub mod flags;
pub mod grid;
pub mod long;
pub mod order;
pub mod size;
pub mod style;
pub mod text;
