//! The index: a single byte string laid out as `format` describes, written by `builder`
//! and read by `store` without parsing anything but the header.

pub mod builder;
pub mod format;
pub mod store;

pub use builder::{BuildStats, IndexBuilder};
pub use store::IndexStore;
