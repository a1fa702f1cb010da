//! Verified core of a stale-entry cleaner: it classifies filesystem entries
//! by access age, scans a directory tree for stale files or stale
//! subdirectories, and plans their removal in reverse discovery order.
//!
//! The scanner works on an in-memory picture of the tree ([`fs::FsNode`]);
//! reading the real filesystem, prompting, and deleting are left to the
//! caller. Every function here carries a proved contract.

pub mod arg;
pub mod fs;
pub mod laws;
pub mod remove;
