//! Core engine of a live-updating disk-usage browser.
//!
//! The library contains the verified logic of the engine: the size
//! aggregation tree, the walker's event synthesis, the scan coordinator's
//! emission decisions, the per-key debounce of size updates, and the
//! per-connection session state. Everything that touches the operating
//! system (directory iteration, stat calls, deletion, the transport)
//! lives outside the library and hands it plain values.

pub mod api;
pub mod coalesce;
pub mod file_tree;
pub mod paths;
pub mod scan;
pub mod session;
pub mod tree;
pub mod walk;

pub use paths::get_components;
