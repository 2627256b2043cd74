//! Generates an mdBook `SUMMARY.md` from a source tree: which files and
//! directories belong in the book, in which order, under which titles, and
//! the text of the summary itself.
pub mod text;
pub mod unicode;
pub mod title;
pub mod natural;
pub mod filter;
pub mod scan;
pub mod listing;
pub mod summary;
pub mod cli;
