//! A verified core for a multi-column, color-coded directory listing.
//!
//! The crate turns a list of raw directory entries into typed, hidden-aware
//! entries, orders them by a case-insensitive sort key, lays them out as a
//! column-major grid that fits a given terminal width, and renders the grid
//! as color-escaped, padded display lines. All I/O (directory enumeration,
//! metadata probes, the terminal-width query, writing to stdout) stays with
//! the caller; the library works on plain values only.

pub mod collate;
pub mod entry;
pub mod grid;
pub mod render;
