//! Finds groups of files that are identical, unique, or kept in too many or too few copies.
//!
//! The crate decides; it never touches the disk. A caller hands over what was found on the disk
//! (lengths, file identifiers, hashes of parts of files) and gets back the groups, together with
//! the parts of files that have to be hashed next.

pub mod config;
pub mod copies;
pub mod dedup;
pub mod files;
pub mod gather;
pub mod group;
pub mod help;
pub mod laws;
pub mod limits;
pub mod metrics;
pub mod order;
pub mod paths;
pub mod process;
pub mod purpose;
pub mod scans;
pub mod sizes;
pub mod splitting;
pub mod stages;
pub mod unique;
