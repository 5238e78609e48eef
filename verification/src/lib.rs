//! Adds PDF bookmarks from an indented plain-text table of contents.
//!
//! The library holds the text format (parsing and formatting of bookmark
//! lines), the resolution of the command-line paths, and the planning of the
//! outline that is written into a PDF document.

pub mod text;
pub mod entry;
pub mod cli;
pub mod outline;
pub mod report;
pub mod placement;
