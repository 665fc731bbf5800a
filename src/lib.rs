//! Resolves named environment profiles into the variables to set.
//!
//! A configuration table is read into profiles (`config`). A requested
//! profile is resolved, with the profiles it takes in, into paths to add and
//! paths to remove per variable (`resolve`). The result is merged with the
//! system's variables into an update plan (`plan`). Variable names compare
//! without case (`env_map`); paths compare without ASCII case, with `/` and
//! `\` alike and trailing separators ignored (`path`, `path_set`).
pub mod args;
pub mod path;
pub mod path_set;
pub mod env_map;
pub mod resolve;
pub mod plan;
pub mod config;
pub mod laws;
