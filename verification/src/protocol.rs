//! The plugin protocol's data types: plugin kinds and keys, projects,
//! inferred projects, and the workspace view handed to plugins.

use vstd::prelude::*;
use crate::configs::ProjectConfig;
use crate::text::string_push;

verus! {

/// What a plugin does: discover projects, enhance them, or hook into
/// lifecycle events.
#[derive(Debug, Clone, Copy, PartialEq, Eq, Structural)]
pub enum PluginType {
    Primary,
    Supplemental,
    Hook,
}

impl PluginType {
    /// Only primary plugins discover projects.
    pub fn discovers_projects(&self) -> (r: bool)
        ensures
            r == (*self is Primary),
    {
        match self {
            PluginType::Primary => true,
            _ => false,
        }
    }

    /// A human-readable description of the plugin kind.
    pub fn description(&self) -> (r: &'static str)
        ensures
            *self is Primary ==> r@ == "Discovers projects and workspace dependencies"@,
            *self is Supplemental ==> r@
                == "Enhances existing projects without discovering new ones"@,
            *self is Hook ==> r@ == "Executes actions at lifecycle hooks"@,
    {
        match self {
            PluginType::Primary => "Discovers projects and workspace dependencies",
            PluginType::Supplemental => "Enhances existing projects without discovering new ones",
            PluginType::Hook => "Executes actions at lifecycle hooks",
        }
    }
}

/// Whether a character counts as whitespace.
pub uninterp spec fn is_whitespace_char(c: char) -> bool;

/// Relies on std's `char::is_whitespace`: the Unicode white-space
/// property of the character.
#[verifier::external_body]
pub fn char_is_whitespace(c: char) -> (r: bool)
    ensures
        r == is_whitespace_char(c),
{
    c.is_whitespace()
}

/// The message given for a key that carries whitespace.
pub open spec fn bad_key_msg(key: Seq<char>) -> Seq<char> {
    "Plugin key '"@ + key + "' contains whitespace characters"@
}

/// A plugin identifier; never contains whitespace.
#[derive(Debug, Clone)]
pub struct PluginKey(String);

impl PluginKey {
    /// The characters of the key.
    pub closed spec fn view(&self) -> Seq<char> {
        self.0@
    }

    /// Accept `key` as a plugin key unless it contains whitespace.
    pub fn new(key: String) -> (r: Result<Self, String>)
        ensures
            match r {
                Ok(k) => k@ == key@ && forall|i: int|
                    0 <= i < key@.len() ==> !is_whitespace_char(#[trigger] key@[i]),
                Err(m) => m@ == bad_key_msg(key@) && exists|i: int|
                    0 <= i < key@.len() && is_whitespace_char(#[trigger] key@[i]),
            },
    {
        let n = key.as_str().unicode_len();
        let mut i: usize = 0;
        while i < n
            invariant
                n == key@.len(),
                i <= n,
                forall|j: int| 0 <= j < i ==> !is_whitespace_char(#[trigger] key@[j]),
            decreases n - i,
        {
            if char_is_whitespace(key.as_str().get_char(i)) {
                let mut m = String::new();
                m.append("Plugin key '");
                m.append(key.as_str());
                m.append("' contains whitespace characters");
                proof {
                    assert(m@ =~= bad_key_msg(key@));
                }
                return Err(m);
            }
            i = i + 1;
        }
        Ok(PluginKey(key))
    }

    /// The key as a string slice.
    pub fn as_str(&self) -> (r: &str)
        ensures
            r@ == self@,
    {
        self.0.as_str()
    }
}

/// An explicit project: a directory with a `marty.yml`.
#[derive(Debug, Clone)]
pub struct Project {
    /// Unique project name.
    pub name: String,
    /// Absolute directory of the project, as a plain path string.
    pub project_dir: String,
    /// Path of the `marty.yml` behind this project, when one exists.
    pub file_path: Option<String>,
    /// Dependencies declared directly in `marty.yml`.
    pub dependencies: Vec<String>,
    /// The parsed `marty.yml`, when one exists and parsed.
    pub config: Option<ProjectConfig>,
}

/// A project discovered by a plugin from a framework manifest.
#[derive(Debug, Clone)]
pub struct InferredProject {
    /// Name taken from the framework manifest.
    pub name: String,
    /// Absolute directory of the project.
    pub project_dir: String,
    /// Key of the plugin that discovered it.
    pub discovered_by: String,
    /// Names of sibling workspace projects this project depends on.
    pub workspace_dependencies: Vec<String>,
}

/// The workspace context handed to plugins during discovery.
#[derive(Debug, Clone)]
pub struct Workspace {
    pub root: String,
    pub projects: Vec<Project>,
    pub inferred_projects: Vec<InferredProject>,
}

/// The serializable shape of an inferred project, as plugins emit it.
#[derive(Debug, Clone)]
pub struct InferredProjectMessage {
    pub name: String,
    pub project_dir: String,
    pub discovered_by: String,
    pub workspace_dependencies: Vec<String>,
}

impl InferredProjectMessage {
    /// Bundle the fields of an inferred-project message.
    pub fn new(
        name: String,
        project_dir: String,
        discovered_by: String,
        workspace_dependencies: Vec<String>,
    ) -> (r: InferredProjectMessage)
        ensures
            r.name == name,
            r.project_dir == project_dir,
            r.discovered_by == discovered_by,
            r.workspace_dependencies == workspace_dependencies,
    {
        InferredProjectMessage { name, project_dir, discovered_by, workspace_dependencies }
    }

    /// The inferred project this message stands for.
    pub fn into_project(self) -> (r: InferredProject)
        ensures
            r.name == self.name,
            r.project_dir == self.project_dir,
            r.discovered_by == self.discovered_by,
            r.workspace_dependencies == self.workspace_dependencies,
    {
        InferredProject {
            name: self.name,
            project_dir: self.project_dir,
            discovered_by: self.discovered_by,
            workspace_dependencies: self.workspace_dependencies,
        }
    }

    /// The message for an inferred project.
    pub fn from_project(p: InferredProject) -> (r: InferredProjectMessage)
        ensures
            r.name == p.name,
            r.project_dir == p.project_dir,
            r.discovered_by == p.discovered_by,
            r.workspace_dependencies == p.workspace_dependencies,
    {
        InferredProjectMessage {
            name: p.name,
            project_dir: p.project_dir,
            discovered_by: p.discovered_by,
            workspace_dependencies: p.workspace_dependencies,
        }
    }
}

} // verus!
