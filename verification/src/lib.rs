//! Duplicate file finder: the verified core.
//!
//! The library holds the logic of the finder: how scanned files are narrowed
//! down to duplicate groups, how the interactive list is indexed, marked,
//! navigated and pruned after a deletion, how keys and mouse events change the
//! session, how sizes and paths are rendered as text, and how a size given on
//! the command line is read (with binary64 arithmetic modelled exactly in
//! integers).
//! The terminal, the file system and the clock stay with the caller.

pub mod app;
pub mod binary64;
pub mod deletion;
pub mod grouping;
pub mod hashing;
pub mod input;
pub mod keys;
pub mod laws;
pub mod paths;
pub mod scan_steps;
pub mod scanner;
pub mod session;
pub mod shorten;
pub mod size_arg;
pub mod sorting;
pub mod text;
pub mod view;
