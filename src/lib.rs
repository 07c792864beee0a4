//! Disk-usage scanning: sized, deduplicated directory trees built from a
//! snapshot of the filesystem, a cache of them by root path, and pruned views.

pub mod cache;
pub mod drives;
pub mod errors;
pub mod identity;
pub mod laws;
pub mod node;
pub mod path;
pub mod scan;
pub mod select;

