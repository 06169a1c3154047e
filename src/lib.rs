//! A small wide-column storage engine: an in-memory table backed by a
//! write-ahead log, immutable sorted disk tables with a separate header
//! index, and compactions that merge them.

pub mod base;
pub mod codec;
pub mod config;
pub mod dtable;
pub mod keys;
pub mod mtable;
pub mod query;
