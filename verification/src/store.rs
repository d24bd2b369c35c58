//! The store of known licenses.

pub mod analyze;
pub mod base;
pub mod cache;
