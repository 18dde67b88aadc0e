//! The TypeScript workspace provider: detects a project per
//! `tsconfig.json` and computes project references from workspace
//! dependencies discovered by other plugins.

use vstd::prelude::*;
use crate::json::{obj_get_spec, JsonValue};
use crate::plugin_cache::{last_segment, last_segment_of, parent_dir_of, parent_of};
use crate::protocol::{InferredProject, InferredProjectMessage, PluginType, Project};
use crate::text::{str_eq, views};

verus! {

/// The TypeScript plugin.
pub struct TypeScriptPlugin;

/// The provider half of the TypeScript plugin.
pub struct TypeScriptWorkspaceProvider;

/// What reference updating reads from a `tsconfig.json`: the paths of the
/// declared project references, in order.
#[derive(Debug, Clone)]
pub struct TsConfigData {
    pub reference_paths: Vec<String>,
}

/// The TypeScript plugin's parsed options.
#[derive(Debug, Clone)]
pub struct TypeScriptPluginConfig {
    pub auto_project_references: bool,
    pub reference_path_style: String,
    pub includes: Vec<String>,
    pub excludes: Vec<String>,
}

impl TypeScriptPlugin {
    /// The TypeScript plugin.
    pub fn new() -> (r: TypeScriptPlugin)
    {
        TypeScriptPlugin
    }

    /// It enhances projects discovered by other plugins.
    pub fn plugin_type(&self) -> (r: PluginType)
        ensures
            r is Supplemental,
    {
        PluginType::Supplemental
    }

    /// Its display name.
    pub fn name(&self) -> (r: &'static str)
        ensures
            r@ == "TypeScript Plugin"@,
    {
        "TypeScript Plugin"
    }

    /// Its stable key.
    pub fn key(&self) -> (r: &'static str)
        ensures
            r@ == "typescript"@,
    {
        "typescript"
    }
}

/// The paths this plugin always skips.
pub fn ignore_path_globs() -> (r: Vec<String>)
    ensures
        views(r@) == seq!["**/node_modules/**"@, "**/.git/**"@, "**/dist/**"@],
{
    let mut v: Vec<String> = Vec::new();
    v.push("**/node_modules/**".to_owned());
    v.push("**/.git/**".to_owned());
    v.push("**/dist/**".to_owned());
    proof {
        assert(views(v@) =~= seq!["**/node_modules/**"@, "**/.git/**"@, "**/dist/**"@]);
    }
    v
}

impl TypeScriptWorkspaceProvider {
    /// The provider half of the TypeScript plugin.
    pub fn new() -> (r: TypeScriptWorkspaceProvider)
    {
        TypeScriptWorkspaceProvider
    }

    /// The files this plugin inspects.
    pub fn include_path_globs(&self) -> (r: Vec<String>)
        ensures
            views(r@) == seq!["**/tsconfig.json"@],
    {
        let mut v: Vec<String> = Vec::new();
        v.push("**/tsconfig.json".to_owned());
        proof {
            assert(views(v@) =~= seq!["**/tsconfig.json"@]);
        }
        v
    }

    /// The directories it skips.
    pub fn exclude_path_globs(&self) -> (r: Vec<String>)
        ensures
            views(r@) == seq!["**/node_modules/**"@, "**/.git/**"@, "**/dist/**"@],
    {
        ignore_path_globs()
    }
}

/// Infer a project from a parsed `tsconfig.json`: the directory's name,
/// with no workspace dependencies of its own (those come from the
/// package manifests).
pub fn process_tsconfig(manifest_path: &str, config: Option<&TsConfigData>) -> (r: Option<
    InferredProjectMessage,
>)
    ensures
        match r {
            Some(msg) => {
                &&& last_segment(manifest_path@) == "tsconfig.json"@
                &&& config is Some
                &&& msg.project_dir@ == parent_of(manifest_path@)
                &&& msg.discovered_by@ == "typescript"@
                &&& msg.name@ == last_segment(parent_of(manifest_path@))
                &&& msg.name@.len() > 0
                &&& msg.workspace_dependencies@.len() == 0
            },
            None => last_segment(manifest_path@) != "tsconfig.json"@ || config is None
                || last_segment(parent_of(manifest_path@)).len() == 0,
        },
{
    let seg = last_segment_of(manifest_path);
    if !str_eq(seg.as_str(), "tsconfig.json") {
        return None;
    }
    if config.is_none() {
        return None;
    }
    let dir = parent_dir_of(manifest_path);
    let name = last_segment_of(dir.as_str());
    if name.as_str().unicode_len() == 0 {
        return None;
    }
    Some(
        InferredProjectMessage {
            name,
            project_dir: dir,
            discovered_by: "typescript".to_owned(),
            workspace_dependencies: Vec::new(),
        },
    )
}

/// The relative path from `base` to `path`, as the path-difference
/// computation defines it; nothing when no relative path exists.
pub uninterp spec fn path_diff(path: Seq<char>, base: Seq<char>) -> Option<Seq<char>>;

/// Relies on pathdiff's `diff_paths`: the relative path from `base` to
/// `path`, a function of the two paths alone.
#[verifier::external_body]
fn diff_paths(path: &str, base: &str) -> (r: Option<String>)
    ensures
        match r {
            Some(s) => path_diff(path@, base@) == Some(s@),
            None => path_diff(path@, base@) is None,
        },
{
    match pathdiff::diff_paths(path, base) {
        Some(p) => Some(p.display().to_string()),
        None => None,
    }
}

/// The directory of the first explicit project carrying `name`.
pub open spec fn first_project_dir(ps: Seq<Project>, name: Seq<char>) -> Option<Seq<char>>
    decreases ps.len(),
{
    if ps.len() == 0 {
        None
    } else if ps[0].name@ == name {
        Some(ps[0].project_dir@)
    } else {
        first_project_dir(ps.drop_first(), name)
    }
}

/// The directory of the first inferred project carrying `name`.
pub open spec fn first_inferred_dir(qs: Seq<InferredProject>, name: Seq<char>) -> Option<
    Seq<char>,
>
    decreases qs.len(),
{
    if qs.len() == 0 {
        None
    } else if qs[0].name@ == name {
        Some(qs[0].project_dir@)
    } else {
        first_inferred_dir(qs.drop_first(), name)
    }
}

/// The directory of the project carrying `name`, explicit projects
/// first, then inferred ones.
pub open spec fn dep_dir_of(
    projects: Seq<Project>,
    inferred: Seq<InferredProject>,
    name: Seq<char>,
) -> Option<Seq<char>> {
    match first_project_dir(projects, name) {
        Some(d) => Some(d),
        None => first_inferred_dir(inferred, name),
    }
}

/// The reference path for one dependency directory, by style: the
/// relative directory, or its `tsconfig.json` directly.
pub open spec fn reference_path(
    dep_dir: Seq<char>,
    current_dir: Seq<char>,
    tsconfig_style: bool,
) -> Option<Seq<char>> {
    match path_diff(dep_dir, current_dir) {
        Some(rel) => if tsconfig_style {
            Some(rel + "/tsconfig.json"@)
        } else {
            Some(rel)
        },
        None => None,
    }
}

/// The string items of a JSON array, in order.
pub open spec fn text_items_spec(items: Seq<JsonValue>) -> Seq<Seq<char>>
    decreases items.len(),
{
    if items.len() == 0 {
        Seq::empty()
    } else {
        let rest = text_items_spec(items.drop_last());
        match items.last() {
            JsonValue::Text(s) => rest.push(s@),
            _ => rest,
        }
    }
}

/// The TypeScript plugin's parsed options: absent or wrongly typed
/// fields fall back to their defaults; a wholly invalid options value
/// yields nothing.
pub fn typescript_config_from_options(options: Option<&JsonValue>) -> (r: Option<
    TypeScriptPluginConfig,
>)
    ensures
        match options {
            Some(v) => match v {
                JsonValue::Object(fields) => r matches Some(c) && (c.auto_project_references
                    == (obj_get_spec(fields@, "auto_project_references"@) matches Some(b) && b
                    matches JsonValue::Bool(t) && t)) && (match obj_get_spec(
                    fields@,
                    "reference_path_style"@,
                ) {
                    Some(JsonValue::Text(s)) => c.reference_path_style@ == s@,
                    _ => c.reference_path_style@ == "relative"@,
                }) && (match obj_get_spec(fields@, "includes"@) {
                    Some(JsonValue::Array(items)) => views(c.includes@) == text_items_spec(
                        items@,
                    ),
                    _ => c.includes@.len() == 0,
                }) && (match obj_get_spec(fields@, "excludes"@) {
                    Some(JsonValue::Array(items)) => views(c.excludes@) == text_items_spec(
                        items@,
                    ),
                    _ => c.excludes@.len() == 0,
                }),
                _ => r is None,
            },
            None => r is None,
        },
{
    let v = match options {
        Some(v) => v,
        None => {
            return None;
        },
    };
    let fields = match v {
        JsonValue::Object(fields) => fields,
        _ => {
            return None;
        },
    };
    let auto = match crate::json::obj_get(fields, "auto_project_references") {
        Some(JsonValue::Bool(b)) => *b,
        _ => false,
    };
    let style: String = match crate::json::obj_get(fields, "reference_path_style") {
        Some(JsonValue::Text(s)) => s.clone(),
        _ => default_reference_path_style(),
    };
    let includes = match crate::json::obj_get(fields, "includes") {
        Some(JsonValue::Array(items)) => text_items(items),
        _ => Vec::new(),
    };
    let excludes = match crate::json::obj_get(fields, "excludes") {
        Some(JsonValue::Array(items)) => text_items(items),
        _ => Vec::new(),
    };
    Some(
        TypeScriptPluginConfig {
            auto_project_references: auto,
            reference_path_style: style,
            includes,
            excludes,
        },
    )
}

/// The strings of a JSON array, in order; other items are dropped.
fn text_items(items: &Vec<JsonValue>) -> (r: Vec<String>)
    ensures
        views(r@) == text_items_spec(items@),
{
    let mut out: Vec<String> = Vec::new();
    let mut i: usize = 0;
    while i < items.len()
        invariant
            i <= items@.len(),
            views(out@) == text_items_spec(items@.subrange(0, i as int)),
        decreases items@.len() - i,
    {
        let ghost pre = views(out@);
        match &items[i] {
            JsonValue::Text(s) => {
                out.push(s.clone());
                proof {
                    assert(views(out@) =~= pre.push(items@[i as int]->Text_0@));
                }
            },
            _ => {},
        }
        proof {
            let ext = items@.subrange(0, i + 1);
            assert(ext.drop_last() =~= items@.subrange(0, i as int));
            assert(ext.last() == items@[i as int]);
        }
        i = i + 1;
    }
    proof {
        assert(items@.subrange(0, items@.len() as int) =~= items@);
    }
    out
}

/// Whether the options ask for automatic project references.
pub fn should_auto_update_references(config_options: Option<&JsonValue>) -> (r: bool)
    ensures
        r == (config_options matches Some(v) && v matches JsonValue::Object(fields)
            && obj_get_spec(fields@, "auto_project_references"@) matches Some(b) && b matches
        JsonValue::Bool(t) && t),
{
    match typescript_config_from_options(config_options) {
        Some(c) => c.auto_project_references,
        None => false,
    }
}

/// The default reference path style.
pub fn default_reference_path_style() -> (r: String)
    ensures
        r@ == "relative"@,
{
    "relative".to_owned()
}

/// Compute the project references a `tsconfig.json` should declare for
/// the given workspace dependencies: one reference per dependency whose
/// project directory is known and relatively reachable, in dependency
/// order.  Yields nothing when the references already match.
pub fn compute_project_references(
    current_reference_paths: &Vec<String>,
    workspace_dependencies: &Vec<String>,
    projects: &Vec<Project>,
    inferred: &Vec<InferredProject>,
    current_dir: &str,
    tsconfig_style: bool,
) -> (r: Option<Vec<String>>)
    ensures
        ({
            let wanted = wanted_references(
                projects@,
                inferred@,
                workspace_dependencies@,
                current_dir@,
                tsconfig_style,
            );
            match r {
                Some(new_refs) => views(new_refs@) == wanted && wanted != views(
                    current_reference_paths@,
                ),
                None => wanted == views(current_reference_paths@),
            }
        }),
{
    let mut new_refs: Vec<String> = Vec::new();
    let mut i: usize = 0;
    while i < workspace_dependencies.len()
        invariant
            i <= workspace_dependencies@.len(),
            views(new_refs@) == wanted_references(
                projects@,
                inferred@,
                workspace_dependencies@.subrange(0, i as int),
                current_dir@,
                tsconfig_style,
            ),
        decreases workspace_dependencies@.len() - i,
    {
        let ghost prefix = workspace_dependencies@.subrange(0, i as int);
        let dep = &workspace_dependencies[i];
        let dir_opt = find_project_dir(projects, inferred, dep.as_str());
        match dir_opt {
            Some(dep_dir) => {
                match diff_paths(dep_dir.as_str(), current_dir) {
                    Some(rel) => {
                        let ghost pre = views(new_refs@);
                        if tsconfig_style {
                            let mut p = rel;
                            p.append("/tsconfig.json");
                            new_refs.push(p);
                        } else {
                            new_refs.push(rel);
                        }
                        proof {
                            assert(views(new_refs@) =~= pre.push(
                                reference_path(dep_dir@, current_dir@, tsconfig_style)->0,
                            ));
                        }
                    },
                    None => {},
                }
            },
            None => {},
        }
        proof {
            let ext = workspace_dependencies@.subrange(0, i + 1);
            assert(ext.drop_last() =~= prefix);
            assert(ext.last() == workspace_dependencies@[i as int]);
        }
        i = i + 1;
    }
    proof {
        assert(workspace_dependencies@.subrange(0, workspace_dependencies@.len() as int)
            =~= workspace_dependencies@);
    }
    if string_lists_equal(&new_refs, current_reference_paths) {
        return None;
    }
    Some(new_refs)
}

/// Whether two string lists agree element for element.
fn string_lists_equal(a: &Vec<String>, b: &Vec<String>) -> (r: bool)
    ensures
        r == (views(a@) == views(b@)),
{
    if a.len() != b.len() {
        proof {
            assert(views(a@).len() != views(b@).len());
        }
        return false;
    }
    let mut k: usize = 0;
    while k < a.len()
        invariant
            a@.len() == b@.len(),
            k <= a@.len(),
            forall|j: int| 0 <= j < k ==> (#[trigger] a@[j]@) == b@[j]@,
        decreases a@.len() - k,
    {
        if !str_eq(a[k].as_str(), b[k].as_str()) {
            proof {
                if views(a@) == views(b@) {
                    assert(views(a@)[k as int] == views(b@)[k as int]);
                }
            }
            return false;
        }
        k = k + 1;
    }
    proof {
        assert(views(a@) =~= views(b@));
    }
    true
}

/// The reference list the dependencies call for.
pub open spec fn wanted_references(
    projects: Seq<Project>,
    inferred: Seq<InferredProject>,
    deps: Seq<String>,
    current_dir: Seq<char>,
    tsconfig_style: bool,
) -> Seq<Seq<char>>
    decreases deps.len(),
{
    if deps.len() == 0 {
        Seq::empty()
    } else {
        let rest = wanted_references(projects, inferred, deps.drop_last(), current_dir,
            tsconfig_style);
        match dep_dir_of(projects, inferred, deps.last()@) {
            Some(dir) => match reference_path(dir, current_dir, tsconfig_style) {
                Some(p) => rest.push(p),
                None => rest,
            },
            None => rest,
        }
    }
}

/// Find the directory of the project carrying `name`.
fn find_project_dir(
    projects: &Vec<Project>,
    inferred: &Vec<InferredProject>,
    name: &str,
) -> (r: Option<String>)
    ensures
        match r {
            Some(d) => dep_dir_of(projects@, inferred@, name@) == Some(d@),
            None => dep_dir_of(projects@, inferred@, name@) is None,
        },
{
    let mut p: usize = 0;
    proof {
        assert(projects@.skip(0) =~= projects@);
    }
    while p < projects.len()
        invariant
            p <= projects@.len(),
            first_project_dir(projects@, name@) == first_project_dir(
                projects@.skip(p as int),
                name@,
            ),
        decreases projects@.len() - p,
    {
        proof {
            assert(projects@.skip(p as int)[0] == projects@[p as int]);
            assert(projects@.skip(p as int).drop_first() =~= projects@.skip(p + 1));
        }
        if str_eq(projects[p].name.as_str(), name) {
            return Some(projects[p].project_dir.clone());
        }
        p = p + 1;
    }
    let mut q: usize = 0;
    proof {
        assert(inferred@.skip(0) =~= inferred@);
        assert(projects@.skip(projects@.len() as int).len() == 0);
    }
    while q < inferred.len()
        invariant
            q <= inferred@.len(),
            first_project_dir(projects@, name@) is None,
            first_inferred_dir(inferred@, name@) == first_inferred_dir(
                inferred@.skip(q as int),
                name@,
            ),
        decreases inferred@.len() - q,
    {
        proof {
            assert(inferred@.skip(q as int)[0] == inferred@[q as int]);
            assert(inferred@.skip(q as int).drop_first() =~= inferred@.skip(q + 1));
        }
        if str_eq(inferred[q].name.as_str(), name) {
            return Some(inferred[q].project_dir.clone());
        }
        q = q + 1;
    }
    proof {
        assert(inferred@.skip(inferred@.len() as int).len() == 0);
    }
    None
}

} // verus!
