//! Core of a sparse-checkout maintenance tool.
//!
//! The library parses build-system coordinates (`scheme:payload` strings) into
//! typed targets, keeps sets of such targets together with a uniformity flag,
//! and resolves directory targets to the repository paths they denote.

pub mod chars;
pub mod coordinate;
pub mod directory_resolver;
