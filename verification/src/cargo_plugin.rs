//! The Cargo workspace provider: infers a project from a `Cargo.toml`,
//! taking path dependencies as workspace dependencies.

use vstd::prelude::*;
use crate::json::JsonValue;
use crate::plugin_cache::{last_segment, parent_of, last_segment_of, parent_dir_of};
use crate::protocol::{InferredProjectMessage, PluginType};
use crate::text::{distinct_views, sort_unique_strings, sorted_views, str_eq, views};

verus! {

/// The Cargo plugin.
pub struct CargoPlugin;

/// The provider half of the Cargo plugin.
pub struct CargoWorkspaceProvider;

/// What the project inference reads from a `Cargo.toml`: the package
/// name, if declared, and each dependency with whether it carries a
/// `path` key.
#[derive(Debug, Clone)]
pub struct CargoManifest {
    pub package_name: Option<String>,
    pub dependencies: Vec<CargoDependency>,
}

/// One dependency entry of a manifest.
#[derive(Debug, Clone)]
pub struct CargoDependency {
    pub name: String,
    pub has_path: bool,
}

impl CargoPlugin {
    /// The Cargo plugin.
    pub fn new() -> (r: CargoPlugin)
    {
        CargoPlugin
    }

    /// It discovers projects.
    pub fn plugin_type(&self) -> (r: PluginType)
        ensures
            r is Primary,
    {
        PluginType::Primary
    }

    /// Its display name.
    pub fn name(&self) -> (r: &'static str)
        ensures
            r@ == "Cargo Plugin"@,
    {
        "Cargo Plugin"
    }

    /// Its stable key.
    pub fn key(&self) -> (r: &'static str)
        ensures
            r@ == "cargo"@,
    {
        "cargo"
    }
}

impl CargoWorkspaceProvider {
    /// The provider half of the Cargo plugin.
    pub fn new() -> (r: CargoWorkspaceProvider)
    {
        CargoWorkspaceProvider
    }

    /// The files this plugin inspects.
    pub fn include_path_globs(&self) -> (r: Vec<String>)
        ensures
            views(r@) == seq!["**/Cargo.toml"@],
    {
        let mut v: Vec<String> = Vec::new();
        v.push("**/Cargo.toml".to_owned());
        proof {
            assert(views(v@) =~= seq!["**/Cargo.toml"@]);
        }
        v
    }

    /// The directories it skips.
    pub fn exclude_path_globs(&self) -> (r: Vec<String>)
        ensures
            views(r@) == seq!["**/target/**"@],
    {
        let mut v: Vec<String> = Vec::new();
        v.push("**/target/**".to_owned());
        proof {
            assert(views(v@) =~= seq!["**/target/**"@]);
        }
        v
    }
}

/// The workspace dependencies a manifest derives: the names of its path
/// dependencies, each once.
pub open spec fn cargo_workspace_dep(m: &CargoManifest, x: Seq<char>) -> bool {
    exists|i: int|
        0 <= i < m.dependencies@.len() && (#[trigger] m.dependencies@[i]).has_path
            && m.dependencies@[i].name@ == x
}

/// The project name a manifest derives: its package name, or the name of
/// the directory that holds it.
pub open spec fn cargo_project_name(path: Seq<char>, m: &CargoManifest) -> Seq<char> {
    match m.package_name {
        Some(n) => n@,
        None => last_segment(parent_of(path)),
    }
}

/// Infer a project from a parsed `Cargo.toml`.
///
/// Yields nothing unless the path's file name is `Cargo.toml` and a
/// project name can be derived; the dependencies are the sorted set of
/// path-dependency names.
pub fn process_manifest(manifest_path: &str, manifest: &CargoManifest) -> (r: Option<
    InferredProjectMessage,
>)
    ensures
        match r {
            Some(msg) => {
                &&& last_segment(manifest_path@) == "Cargo.toml"@
                &&& msg.project_dir@ == parent_of(manifest_path@)
                &&& msg.discovered_by@ == "cargo"@
                &&& msg.name@ == cargo_project_name(manifest_path@, manifest)
                &&& msg.name@.len() > 0
                &&& sorted_views(msg.workspace_dependencies@)
                &&& distinct_views(msg.workspace_dependencies@)
                &&& forall|x: Seq<char>|
                    #[trigger] views(msg.workspace_dependencies@).contains(x)
                        <==> cargo_workspace_dep(manifest, x)
            },
            None => last_segment(manifest_path@) != "Cargo.toml"@ || cargo_project_name(
                manifest_path@,
                manifest,
            ).len() == 0,
        },
{
    let seg = last_segment_of(manifest_path);
    if !str_eq(seg.as_str(), "Cargo.toml") {
        return None;
    }
    let dir = parent_dir_of(manifest_path);
    let name: String = match &manifest.package_name {
        Some(n) => n.clone(),
        None => last_segment_of(dir.as_str()),
    };
    if name.as_str().unicode_len() == 0 {
        return None;
    }
    let mut dep_names: Vec<String> = Vec::new();
    let mut i: usize = 0;
    while i < manifest.dependencies.len()
        invariant
            i <= manifest.dependencies@.len(),
            forall|x: Seq<char>|
                #[trigger] views(dep_names@).contains(x) <==> exists|j: int|
                    0 <= j < i && (#[trigger] manifest.dependencies@[j]).has_path
                        && manifest.dependencies@[j].name@ == x,
        decreases manifest.dependencies@.len() - i,
    {
        let ghost pre = dep_names@;
        if manifest.dependencies[i].has_path {
            dep_names.push(manifest.dependencies[i].name.clone());
            proof {
                assert(views(dep_names@) =~= views(pre).push(
                    manifest.dependencies@[i as int].name@,
                ));
            }
        }
        proof {
            assert forall|x: Seq<char>| #[trigger] views(dep_names@).contains(x) <==> exists|
                j: int,
            |
                0 <= j < i + 1 && (#[trigger] manifest.dependencies@[j]).has_path
                    && manifest.dependencies@[j].name@ == x by {
                if views(dep_names@).contains(x) {
                    let a = choose|a: int|
                        0 <= a < views(dep_names@).len() && #[trigger] views(dep_names@)[a] == x;
                    if a < pre.len() {
                        assert(views(pre)[a] == x);
                        assert(views(pre).contains(x));
                    } else {
                        assert(manifest.dependencies@[i as int].has_path
                            && manifest.dependencies@[i as int].name@ == x);
                    }
                }
                if exists|j: int|
                    0 <= j < i + 1 && (#[trigger] manifest.dependencies@[j]).has_path
                        && manifest.dependencies@[j].name@ == x {
                    let j = choose|j: int|
                        0 <= j < i + 1 && (#[trigger] manifest.dependencies@[j]).has_path
                            && manifest.dependencies@[j].name@ == x;
                    if j < i {
                        assert(views(pre).contains(x));
                        let a = choose|a: int|
                            0 <= a < views(pre).len() && #[trigger] views(pre)[a] == x;
                        assert(views(dep_names@)[a] == x);
                    } else {
                        assert(views(dep_names@)[views(dep_names@).len() - 1] == x);
                    }
                }
            }
        }
        i = i + 1;
    }
    let sorted = sort_unique_strings(&dep_names);
    Some(
        InferredProjectMessage {
            name,
            project_dir: dir,
            discovered_by: "cargo".to_owned(),
            workspace_dependencies: sorted,
        },
    )
}

/// The Cargo plugin's option schema: optional extra include and exclude
/// globs, nothing else.
pub fn cargo_configuration_options() -> (r: Option<JsonValue>)
    ensures
        r matches Some(v) && v matches JsonValue::Object(sf)
            && crate::json::obj_get_spec(sf@, "properties"@) matches Some(p)
            && p matches JsonValue::Object(props)
            && crate::plugin_cache::field_keys(props@) == seq!["includes"@, "excludes"@]
            && crate::plugin_cache::additional_props_false(sf@),
{
    crate::plugin_cache::glob_options_schema()
}

} // verus!
