//! The pnpm workspace provider: infers a project from a `package.json`,
//! taking `workspace:` and `file:` dependencies as workspace
//! dependencies.

use vstd::prelude::*;
use crate::json::JsonValue;
use crate::plugin_cache::{last_segment, last_segment_of, parent_dir_of, parent_of};
use crate::protocol::{InferredProjectMessage, PluginType};
use crate::text::{
    distinct_views, sort_unique_strings, sorted_views, str_eq, str_has_prefix, views,
};

verus! {

/// The pnpm plugin.
pub struct PnpmPlugin;

/// The provider half of the pnpm plugin.
pub struct PnpmWorkspaceProvider;

/// What the project inference reads from a `package.json`: the declared
/// name, if any, and every dependency entry (from all four dependency
/// tables, in order) with its version specifier.
#[derive(Debug, Clone)]
pub struct PackageManifest {
    pub name: Option<String>,
    pub dependency_specs: Vec<(String, String)>,
}

impl PnpmPlugin {
    /// The pnpm plugin.
    pub fn new() -> (r: PnpmPlugin)
    {
        PnpmPlugin
    }

    /// It discovers projects.
    pub fn plugin_type(&self) -> (r: PluginType)
        ensures
            r is Primary,
    {
        PluginType::Primary
    }

    /// Its display name.
    pub fn name(&self) -> (r: &'static str)
        ensures
            r@ == "PNPM Plugin"@,
    {
        "PNPM Plugin"
    }

    /// Its stable key.
    pub fn key(&self) -> (r: &'static str)
        ensures
            r@ == "pnpm"@,
    {
        "pnpm"
    }
}

/// The paths this plugin always skips.
pub fn ignore_path_globs() -> (r: Vec<String>)
    ensures
        views(r@) == seq!["**/node_modules/**"@, "**/.git/**"@, "**/target/**"@],
{
    let mut v: Vec<String> = Vec::new();
    v.push("**/node_modules/**".to_owned());
    v.push("**/.git/**".to_owned());
    v.push("**/target/**".to_owned());
    proof {
        assert(views(v@) =~= seq!["**/node_modules/**"@, "**/.git/**"@, "**/target/**"@]);
    }
    v
}

impl PnpmWorkspaceProvider {
    /// The provider half of the pnpm plugin.
    pub fn new() -> (r: PnpmWorkspaceProvider)
    {
        PnpmWorkspaceProvider
    }

    /// The files this plugin inspects.
    pub fn include_path_globs(&self) -> (r: Vec<String>)
        ensures
            views(r@) == seq!["**/package.json"@],
    {
        let mut v: Vec<String> = Vec::new();
        v.push("**/package.json".to_owned());
        proof {
            assert(views(v@) =~= seq!["**/package.json"@]);
        }
        v
    }

    /// The directories it skips.
    pub fn exclude_path_globs(&self) -> (r: Vec<String>)
        ensures
            views(r@) == seq!["**/node_modules/**"@, "**/.git/**"@, "**/target/**"@],
    {
        ignore_path_globs()
    }
}

/// A dependency counts as a workspace dependency when its specifier uses
/// the `workspace:` protocol or a `file:` reference.
pub open spec fn is_workspace_spec(spec_text: Seq<char>) -> bool {
    "workspace:"@.is_prefix_of(spec_text) || "file:"@.is_prefix_of(spec_text)
}

/// The workspace dependencies a manifest derives.
pub open spec fn pnpm_workspace_dep(m: &PackageManifest, x: Seq<char>) -> bool {
    exists|i: int|
        0 <= i < m.dependency_specs@.len() && is_workspace_spec(
            (#[trigger] m.dependency_specs@[i]).1@,
        ) && m.dependency_specs@[i].0@ == x
}

/// The project name a manifest derives.
pub open spec fn pnpm_project_name(path: Seq<char>, m: &PackageManifest) -> Seq<char> {
    match m.name {
        Some(n) => n@,
        None => last_segment(parent_of(path)),
    }
}

/// Infer a project from a parsed `package.json`.
pub fn process_package_json(manifest_path: &str, manifest: &PackageManifest) -> (r: Option<
    InferredProjectMessage,
>)
    ensures
        match r {
            Some(msg) => {
                &&& last_segment(manifest_path@) == "package.json"@
                &&& msg.project_dir@ == parent_of(manifest_path@)
                &&& msg.discovered_by@ == "pnpm"@
                &&& msg.name@ == pnpm_project_name(manifest_path@, manifest)
                &&& msg.name@.len() > 0
                &&& sorted_views(msg.workspace_dependencies@)
                &&& distinct_views(msg.workspace_dependencies@)
                &&& forall|x: Seq<char>|
                    #[trigger] views(msg.workspace_dependencies@).contains(x)
                        <==> pnpm_workspace_dep(manifest, x)
            },
            None => last_segment(manifest_path@) != "package.json"@ || pnpm_project_name(
                manifest_path@,
                manifest,
            ).len() == 0,
        },
{
    let seg = last_segment_of(manifest_path);
    if !str_eq(seg.as_str(), "package.json") {
        return None;
    }
    let dir = parent_dir_of(manifest_path);
    let name: String = match &manifest.name {
        Some(n) => n.clone(),
        None => last_segment_of(dir.as_str()),
    };
    if name.as_str().unicode_len() == 0 {
        return None;
    }
    let mut dep_names: Vec<String> = Vec::new();
    let mut i: usize = 0;
    while i < manifest.dependency_specs.len()
        invariant
            i <= manifest.dependency_specs@.len(),
            forall|x: Seq<char>|
                #[trigger] views(dep_names@).contains(x) <==> exists|j: int|
                    0 <= j < i && is_workspace_spec((#[trigger] manifest.dependency_specs@[j]).1@)
                        && manifest.dependency_specs@[j].0@ == x,
        decreases manifest.dependency_specs@.len() - i,
    {
        let ghost pre = dep_names@;
        let keep = str_has_prefix(manifest.dependency_specs[i].1.as_str(), "workspace:")
            || str_has_prefix(manifest.dependency_specs[i].1.as_str(), "file:");
        if keep {
            dep_names.push(manifest.dependency_specs[i].0.clone());
            proof {
                assert(views(dep_names@) =~= views(pre).push(
                    manifest.dependency_specs@[i as int].0@,
                ));
            }
        }
        proof {
            assert forall|x: Seq<char>| #[trigger] views(dep_names@).contains(x) <==> exists|
                j: int,
            |
                0 <= j < i + 1 && is_workspace_spec(
                    (#[trigger] manifest.dependency_specs@[j]).1@,
                ) && manifest.dependency_specs@[j].0@ == x by {
                if views(dep_names@).contains(x) {
                    let a = choose|a: int|
                        0 <= a < views(dep_names@).len() && #[trigger] views(dep_names@)[a] == x;
                    if a < pre.len() {
                        assert(views(pre)[a] == x);
                        assert(views(pre).contains(x));
                    } else {
                        assert(is_workspace_spec(manifest.dependency_specs@[i as int].1@)
                            && manifest.dependency_specs@[i as int].0@ == x);
                    }
                }
                if exists|j: int|
                    0 <= j < i + 1 && is_workspace_spec(
                        (#[trigger] manifest.dependency_specs@[j]).1@,
                    ) && manifest.dependency_specs@[j].0@ == x {
                    let j = choose|j: int|
                        0 <= j < i + 1 && is_workspace_spec(
                            (#[trigger] manifest.dependency_specs@[j]).1@,
                        ) && manifest.dependency_specs@[j].0@ == x;
                    if j < i {
                        assert(views(pre).contains(x));
                        let a = choose|a: int|
                            0 <= a < views(pre).len() && #[trigger] views(pre)[a] == x;
                        assert(views(dep_names@)[a] == x);
                    } else {
                        assert(views(dep_names@)[views(dep_names@).len() - 1] == x);
                    }
                }
            }
        }
        i = i + 1;
    }
    let sorted = sort_unique_strings(&dep_names);
    Some(
        InferredProjectMessage {
            name,
            project_dir: dir,
            discovered_by: "pnpm".to_owned(),
            workspace_dependencies: sorted,
        },
    )
}

/// The pnpm plugin's option schema: optional extra include and exclude
/// globs, nothing else.
pub fn pnpm_configuration_options() -> (r: Option<JsonValue>)
    ensures
        r matches Some(v) && v matches JsonValue::Object(sf)
            && crate::json::obj_get_spec(sf@, "properties"@) matches Some(p)
            && p matches JsonValue::Object(props)
            && crate::plugin_cache::field_keys(props@) == seq!["includes"@, "excludes"@]
            && crate::plugin_cache::additional_props_false(sf@),
{
    crate::plugin_cache::glob_options_schema()
}

} // verus!
