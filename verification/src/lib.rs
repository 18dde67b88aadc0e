//! Core library of a monorepo management tool.
//!
//! A workspace is a directory tree holding projects; plugins infer projects
//! from framework manifests, a dependency graph orders them, and tasks run
//! against them level by level.  This crate holds the verified logic: the
//! graph algorithms, task resolution and planning, plugin cache key
//! derivation, and option validation.  Filesystem, network and subprocess
//! work lives outside the crate and hands plain values in and out.

pub mod types;
pub mod text;
pub mod graph;
pub mod json;
pub mod configs;
pub mod protocol;
pub mod platform;
pub mod workspace;
pub mod task_execution;
pub mod execution;
pub mod plugin_cache;
pub mod cargo_plugin;
pub mod pnpm_plugin;
pub mod typescript_plugin;
pub mod results;
pub mod workspace_manager;
pub mod scan;

pub use types::{MartyError, MartyResult};
