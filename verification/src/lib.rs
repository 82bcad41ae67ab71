//! Append-only ephemeral files: bytes are collected in a tail buffer in memory and spilled to
//! disk one full tail at a time, and stay readable throughout.
//!
//! The crate decides what to copy, what to write where and what to read from where. Performing
//! the disk I/O and serialising the writers is left to the caller.

pub mod file;
pub mod laws;
pub mod model;
pub mod name;
pub mod path;
