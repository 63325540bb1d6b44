//! Lexical path normalization, plus access to decoded tree objects.
//!
//! The heart of the crate is [`norm::normalize`]: it resolves `.` and `..`
//! components of a path against a reference directory without touching the
//! filesystem, and fails when a path would walk above the available root.

pub mod norm;
pub mod tree;

pub use norm::normalize;
