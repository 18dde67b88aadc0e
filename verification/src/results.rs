//! Result shapes for workspace queries.

use vstd::prelude::*;
use crate::graph::DepGraph;

verus! {

/// A tracked project, with its tags and whether it has its own settings.
#[derive(Debug, Clone)]
pub struct ProjectInfo {
    pub name: String,
    pub path: String,
    pub tags: Vec<String>,
    pub has_config: bool,
}

/// A plugin-discovered project, and whether a tracked project shares its
/// name.
#[derive(Debug, Clone)]
pub struct InferredProjectInfo {
    pub name: String,
    pub path: String,
    pub discovered_by: String,
    pub is_tracked: bool,
}

/// The outcome of listing projects.
#[derive(Debug)]
pub struct ProjectListResult {
    pub explicit_projects: Vec<ProjectInfo>,
    pub inferred_projects: Vec<InferredProjectInfo>,
}

/// The dependency graph and its detected cycles.
#[derive(Debug)]
pub struct DependencyGraphResult {
    pub graph: Option<DepGraph>,
    pub cycles: Vec<Vec<String>>,
}

} // verus!
