//! Capture a directory tree into a named profile and materialize it again.
//!
//! The profile model is a rooted tree of directory nodes and typed file
//! entries.  The library provides the binary codec for profile files, the
//! capture and materialization planners, the profile registry path rules,
//! and the settings document used to remember a default profile.

pub mod cli;
pub mod codec;
pub mod materialize;
pub mod paths;
pub mod profile;
pub mod settings;
pub mod text;
