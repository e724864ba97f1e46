//! Cumulative directory sizes: deciding which directories to skip, walking a
//! tree from what a filesystem reports, and ranking the largest directories.
//!
//! The library reads no filesystem. A [`walker::Walker`] names the
//! directories it wants listed; the caller lists them, in any way and on as
//! many threads as it likes, and hands the listings back in the order in
//! which they were asked for. When no directory is left the walker gives the
//! [`table::Table`] of directory totals, and [`rank::rank`] picks the largest.

pub mod entry;
pub mod exclude;
pub mod laws;
pub mod rank;
pub mod table;
pub mod walk;
pub mod walker;
