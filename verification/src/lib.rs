//! A registry of git-backed projects grouped by user-defined tags.
//!
//! The registry is a pure value: every operation takes a registry and
//! returns either a new registry or a typed error, and the codec turns
//! a registry into its canonical text document and back.

pub mod codec;
pub mod config;
pub mod errors;
pub mod order;
pub mod tag;
