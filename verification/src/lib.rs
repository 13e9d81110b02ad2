//! A source-based package manager's resolution and state engine: it parses
//! per-package metadata into typed records, expands named package sets,
//! resolves transitive dependency order, maintains a persisted store of
//! package state with change detection, and compares declared versions
//! against upstream candidates.
//!
//! All I/O (shelling out to the metadata backend, HTTP probes, the terminal)
//! lives outside this crate; the functions here work on plain values handed
//! in by the caller.

pub mod codec;
pub mod config;
pub mod flags;
pub mod linkval;
pub mod options;
pub mod package;
pub mod pm;
pub mod resolve;
pub mod sets;
pub mod text;
pub mod tracking;
pub mod upstream;
pub mod utils;
