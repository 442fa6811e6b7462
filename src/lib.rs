//! The dependency-resolution core of a make-like task runner: it builds the
//! acyclic graph of targets and files, finds the targets that must be rebuilt
//! for a requested target, and orders them so that every target comes after
//! what it needs.
pub mod dag;
pub mod deps;
pub mod error;
pub mod fingerprint;
pub mod format;
pub mod laws;
pub mod paths;
pub mod target;
