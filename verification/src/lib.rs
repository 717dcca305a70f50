//! A folder watcher: which files it looks at, what it reports about them, and
//! the state it keeps between two scans.
//!
//! The watcher touches neither the file system nor a network nor a store. Where a
//! step needs one of them, it says what has to be done and is told how it went.

pub mod text;
pub mod path;
pub mod path_laws;
pub mod path_map;
pub mod model;
pub mod filter;
pub mod digest;
mod clock;
pub mod scan;
pub mod scan_laws;
pub mod link_laws;
pub mod depth_laws;
pub mod changes;
pub mod change_laws;
pub mod json;
pub mod emit;
pub mod state;
pub mod report;
pub mod cycle;
pub mod cycle_laws;
pub mod contract;
pub mod sink;
