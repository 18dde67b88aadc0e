//! Workspace scanning decisions: effective include and exclude globs,
//! and the verdict for each directory entry.
//!
//! The filesystem walk itself lives outside the library; it hands in each
//! entry's path relative to the root and takes back what to do with it.

use vstd::prelude::*;
use crate::text::{clone_strings, views};

verus! {

/// Whether a glob pattern matches a path, as the glob engine defines it;
/// nothing decidable is assumed of an invalid pattern.
pub uninterp spec fn glob_verdict(pattern: Seq<char>, path: Seq<char>) -> Option<bool>;

/// Relies on globset's `Glob::new`, `GlobSetBuilder::build` and
/// `GlobSet::is_match`: whether the pattern matches the path, or nothing
/// for a pattern the engine rejects at parse or compile time; a function
/// of the pattern and the path alone.  Building through the set builder
/// returns the compile error instead of panicking.
#[verifier::external_body]
fn glob_match(pattern: &str, path: &str) -> (r: Option<bool>)
    ensures
        match r {
            Some(b) => glob_verdict(pattern@, path@) == Some(b),
            None => glob_verdict(pattern@, path@) is None,
        },
{
    let glob = match globset::Glob::new(pattern) {
        Ok(g) => g,
        Err(_) => return None,
    };
    let mut builder = globset::GlobSetBuilder::new();
    builder.add(glob);
    match builder.build() {
        Ok(set) => Some(set.is_match(path)),
        Err(_) => None,
    }
}

/// Some valid pattern of the list matches the path.
pub open spec fn any_glob_matches(patterns: Seq<Seq<char>>, path: Seq<char>) -> bool {
    exists|i: int|
        0 <= i < patterns.len() && glob_verdict(#[trigger] patterns[i], path) == Some(true)
}

/// Whether any valid pattern of the list matches the path; invalid
/// patterns are skipped.
pub fn match_any_glob(patterns: &Vec<String>, path: &str) -> (r: bool)
    ensures
        r == any_glob_matches(views(patterns@), path@),
{
    let mut i: usize = 0;
    while i < patterns.len()
        invariant
            i <= patterns@.len(),
            forall|j: int|
                0 <= j < i ==> glob_verdict(#[trigger] views(patterns@)[j], path@) != Some(true),
        decreases patterns@.len() - i,
    {
        match glob_match(patterns[i].as_str(), path) {
            Some(true) => {
                proof {
                    assert(glob_verdict(views(patterns@)[i as int], path@) == Some(true));
                }
                return true;
            },
            _ => {},
        }
        i = i + 1;
    }
    false
}

/// The effective include patterns: the workspace's own list when it sets
/// one, else the plugin's, else everything.
pub open spec fn effective_includes_spec(
    workspace_includes: Seq<Seq<char>>,
    plugin_includes: Seq<Seq<char>>,
) -> Seq<Seq<char>> {
    if workspace_includes.len() > 0 {
        workspace_includes
    } else if plugin_includes.len() > 0 {
        plugin_includes
    } else {
        seq!["**"@]
    }
}

/// The effective include patterns of a scan.
pub fn effective_includes(workspace_includes: &Vec<String>, plugin_includes: &Vec<String>) -> (r:
    Vec<String>)
    ensures
        views(r@) == effective_includes_spec(views(workspace_includes@), views(plugin_includes@)),
{
    if workspace_includes.len() > 0 {
        clone_strings(workspace_includes)
    } else if plugin_includes.len() > 0 {
        clone_strings(plugin_includes)
    } else {
        let mut v: Vec<String> = Vec::new();
        v.push("**".to_owned());
        proof {
            assert(views(v@) =~= seq!["**"@]);
        }
        v
    }
}

/// The built-in excludes joined with the workspace's and the plugin's.
pub open spec fn effective_excludes_spec(
    workspace_excludes: Seq<Seq<char>>,
    plugin_excludes: Seq<Seq<char>>,
) -> Seq<Seq<char>> {
    seq!["**/.git/**"@, "**/target/**"@, "**/node_modules/**"@] + workspace_excludes
        + plugin_excludes
}

/// The effective exclude patterns of a scan.
pub fn effective_excludes(workspace_excludes: &Vec<String>, plugin_excludes: &Vec<String>) -> (r:
    Vec<String>)
    ensures
        views(r@) == effective_excludes_spec(views(workspace_excludes@), views(plugin_excludes@)),
{
    let mut v: Vec<String> = Vec::new();
    v.push("**/.git/**".to_owned());
    v.push("**/target/**".to_owned());
    v.push("**/node_modules/**".to_owned());
    let mut ws = clone_strings(workspace_excludes);
    v.append(&mut ws);
    let mut pl = clone_strings(plugin_excludes);
    v.append(&mut pl);
    proof {
        assert(views(v@) =~= effective_excludes_spec(
            views(workspace_excludes@),
            views(plugin_excludes@),
        ));
    }
    v
}

/// What the walk does with one directory entry.
#[derive(Debug, Clone, Copy, PartialEq, Eq, Structural)]
pub enum ScanAction {
    /// The entry is excluded: do not descend, do not offer.
    Skip,
    /// A directory to walk into.
    Descend,
    /// A file to offer to every plugin.
    Inspect,
}

/// The verdict for one entry: excluded paths are skipped, directories are
/// walked, and files are offered only when an include pattern matches.
pub open spec fn scan_action_spec(
    includes: Seq<Seq<char>>,
    excludes: Seq<Seq<char>>,
    rel_path: Seq<char>,
    is_file: bool,
) -> ScanAction {
    if any_glob_matches(excludes, rel_path) {
        ScanAction::Skip
    } else if !is_file {
        ScanAction::Descend
    } else if any_glob_matches(includes, rel_path) {
        ScanAction::Inspect
    } else {
        ScanAction::Skip
    }
}

/// Decide what to do with one directory entry.
pub fn scan_action(
    includes: &Vec<String>,
    excludes: &Vec<String>,
    rel_path: &str,
    is_file: bool,
) -> (r: ScanAction)
    ensures
        r == scan_action_spec(views(includes@), views(excludes@), rel_path@, is_file),
{
    if match_any_glob(excludes, rel_path) {
        ScanAction::Skip
    } else if !is_file {
        ScanAction::Descend
    } else if match_any_glob(includes, rel_path) {
        ScanAction::Inspect
    } else {
        ScanAction::Skip
    }
}

} // verus!
