//! Scans a directory tree and keeps the largest files, or the largest folders
//! by total size, in a fixed-capacity top-K tracker.

pub mod tracker;
pub mod walker;

pub use tracker::{Entry, Tracker, to_mb, MB_FACTOR};
pub use walker::{Child, DirNode, walk, total_size, scan};
