//! The workspace: explicit and inferred projects, the dependency graph
//! built from them, and the queries the task engine asks of it.

use vstd::prelude::*;
use crate::graph::{
    appears, cycles_disjoint, cycles_ordered, find_cycles, in_name_lists, levels_respect_edges,
    levels_wf, mutual_closed, reachable_from, strongly_connected_in, name_set_of, topo_levels,
    DepGraph,
};
use crate::protocol::{InferredProject, Project};
use crate::types::{MartyError, MartyResult};
use crate::text::{clone_strings, distinct_views, join_strings, joined, sorted_views, str_eq, views};

verus! {

/// A workspace with its discovered projects and dependency data.
#[derive(Debug)]
pub struct Workspace {
    pub root: String,
    pub projects: Vec<Project>,
    pub inferred_projects: Vec<InferredProject>,
    pub dep_graph: Option<DepGraph>,
    pub dependency_cycles: Vec<Vec<String>>,
}

/// The cycle report matches the graph: a name is listed exactly when its
/// node lies on a cycle; each list is the sorted name set of a strongly
/// connected induced subgraph; lists are ordered and disjoint.
pub open spec fn cycle_report_ok(g: &DepGraph, cycles: Seq<Vec<String>>) -> bool {
    &&& forall|x: Seq<char>| #[trigger] in_name_lists(cycles, x) <==> g.name_on_cycle(x)
    &&& forall|c: int|
        0 <= c < cycles.len() ==> (#[trigger] cycles[c]@.len()) > 0 && sorted_views(cycles[c]@)
            && distinct_views(cycles[c]@)
    &&& forall|c: int|
        0 <= c < cycles.len() ==> strongly_connected_in(
            g,
            name_set_of(g, views(#[trigger] cycles[c]@)),
        )
    &&& forall|c: int|
        0 <= c < cycles.len() ==> mutual_closed(g, name_set_of(g, views(#[trigger] cycles[c]@)))
    &&& cycles_ordered(cycles)
    &&& cycles_disjoint(cycles)
}

impl Workspace {
    /// A fresh workspace with the given root and nothing discovered yet.
    pub fn new(root: String) -> (r: Workspace)
        ensures
            r.root == root,
            r.projects@.len() == 0,
            r.inferred_projects@.len() == 0,
            r.dep_graph is None,
            r.dependency_cycles@.len() == 0,
    {
        Workspace {
            root,
            projects: Vec::new(),
            inferred_projects: Vec::new(),
            dep_graph: None,
            dependency_cycles: Vec::new(),
        }
    }

    /// The dependency data, when present, agrees with the graph.
    pub open spec fn graph_ok(&self) -> bool {
        self.dep_graph matches Some(g) ==> g.wf() && cycle_report_ok(
            &g,
            self.dependency_cycles@,
        )
    }

    /// Record a discovery: the inferred project is appended, and when its
    /// directory holds a `marty.yml` (already read and parsed by the
    /// caller), an explicit project is appended as well.
    pub fn record_discovery(
        &mut self,
        inferred: InferredProject,
        manifest: Option<(String, Option<crate::configs::ProjectConfig>)>,
    )
        ensures
            final(self).root == old(self).root,
            final(self).dep_graph == old(self).dep_graph,
            final(self).dependency_cycles == old(self).dependency_cycles,
            final(self).inferred_projects@ == old(self).inferred_projects@.push(inferred),
            match manifest {
                Some(m) => {
                    let p = final(self).projects@.last();
                    &&& final(self).projects@.len() == old(self).projects@.len() + 1
                    &&& p.name == inferred.name
                    &&& p.project_dir == inferred.project_dir
                    &&& p.file_path == Some(m.0)
                    &&& p.config == m.1
                    &&& final(self).projects@.drop_last() == old(self).projects@
                },
                None => final(self).projects@ == old(self).projects@,
            },
    {
        match manifest {
            Some(m) => {
                let p = Project {
                    name: inferred.name.clone(),
                    project_dir: inferred.project_dir.clone(),
                    file_path: Some(m.0),
                    dependencies: Vec::new(),
                    config: m.1,
                };
                self.projects.push(p);
            },
            None => {},
        }
        self.inferred_projects.push(inferred);
    }
}

/// Error text for a dependency on an unknown project.
pub open spec fn msg_missing_dep(p: Seq<char>, d: Seq<char>) -> Seq<char> {
    "Project '"@ + p + "' depends on '"@ + d + "' which was not found"@
}

/// Error text for two projects sharing one name.
pub open spec fn msg_duplicate_project(p: Seq<char>) -> Seq<char> {
    "Duplicate project name '"@ + p + "'"@
}

/// Error text for queries before the graph is built.
pub open spec fn msg_no_graph() -> Seq<char> {
    "Dependency graph not built. Call build_dependency_graph first."@
}

/// Error text for an unknown target project.
pub open spec fn msg_target_not_found(t: Seq<char>) -> Seq<char> {
    "Target project '"@ + t + "' not found in workspace"@
}

/// The name lists of a list of cycles.
pub open spec fn list_views(cs: Seq<Vec<String>>) -> Seq<Seq<Seq<char>>> {
    cs.map_values(|c: Vec<String>| views(c@))
}

/// A cycle printed as a path returning to its first name.
pub open spec fn cycle_path(c: Seq<Seq<char>>) -> Seq<char> {
    joined(c.push(c[0]), " -> "@)
}

/// Error text for cycles that block dependency resolution.
pub open spec fn msg_circular(rel: Seq<Seq<Seq<char>>>) -> Seq<char> {
    "Circular dependency detected: "@ + joined(
        rel.map_values(|c: Seq<Seq<char>>| cycle_path(c)),
        "; "@,
    )
}

/// Build one missing-dependency message.
fn missing_dep_message(p: &str, d: &str) -> (r: String)
    ensures
        r@ == msg_missing_dep(p@, d@),
{
    let mut m = String::new();
    m.append("Project '");
    m.append(p);
    m.append("' depends on '");
    m.append(d);
    m.append("' which was not found");
    proof {
        assert(m@ =~= msg_missing_dep(p@, d@));
    }
    m
}

/// The first inferred project carrying `name`, if any.
pub open spec fn first_inferred_with_name(ps: Seq<InferredProject>, name: Seq<char>) -> Option<
    InferredProject,
>
    decreases ps.len(),
{
    if ps.len() == 0 {
        None
    } else if ps[0].name@ == name {
        Some(ps[0])
    } else {
        first_inferred_with_name(ps.drop_first(), name)
    }
}

/// The workspace dependencies the graph derives for the project named
/// `name`: those of its first matching inferred project, or none.
pub open spec fn derived_deps(w: &Workspace, name: Seq<char>) -> Seq<String> {
    match first_inferred_with_name(w.inferred_projects@, name) {
        Some(ip) => ip.workspace_dependencies@,
        None => Seq::empty(),
    }
}

/// Project `i`'s derived dependency `d` names no project of the workspace.
pub open spec fn dep_unresolved(w: &Workspace, i: int, d: int) -> bool {
    let name = w.projects@[i].name@;
    let deps = derived_deps(w, name);
    &&& 0 <= i < w.projects@.len()
    &&& 0 <= d < deps.len()
    &&& forall|p: int| 0 <= p < w.projects@.len() ==> (#[trigger] w.projects@[p].name@) != deps[d]@
}

/// Row `row` holds edges to exactly the nodes named among project `x`'s
/// derived dependencies.
pub open spec fn row_edges_match(w: &Workspace, nodes: Seq<String>, row: Seq<usize>, x: int) -> bool {
    forall|v: int|
        #![trigger nodes[v]]
        0 <= v < nodes.len() ==> ((exists|k: int|
            0 <= k < row.len() && (#[trigger] row[k] as int) == v) <==> views(
            derived_deps(w, nodes[x]@),
        ).contains(nodes[v]@))
}

/// Find the first inferred project with the given name.
fn find_inferred<'a>(ps: &'a Vec<InferredProject>, name: &str) -> (r: Option<&'a InferredProject>)
    ensures
        match r {
            Some(ip) => first_inferred_with_name(ps@, name@) == Some(*ip),
            None => first_inferred_with_name(ps@, name@) is None,
        },
{
    let mut i: usize = 0;
    proof {
        assert(ps@.skip(0) =~= ps@);
    }
    while i < ps.len()
        invariant
            i <= ps@.len(),
            first_inferred_with_name(ps@, name@) == first_inferred_with_name(
                ps@.skip(i as int),
                name@,
            ),
        decreases ps@.len() - i,
    {
        proof {
            assert(ps@.skip(i as int)[0] == ps@[i as int]);
            assert(ps@.skip(i as int).drop_first() =~= ps@.skip(i + 1));
        }
        if str_eq(ps[i].name.as_str(), name) {
            return Some(&ps[i]);
        }
        i = i + 1;
    }
    None
}

/// Find the index of `name` in a list of names.
fn find_name(names: &Vec<String>, name: &str) -> (r: Option<usize>)
    ensures
        match r {
            Some(u) => (u as int) < names@.len() && names@[u as int]@ == name@,
            None => forall|k: int| 0 <= k < names@.len() ==> (#[trigger] names@[k]@) != name@,
        },
{
    let mut i: usize = 0;
    while i < names.len()
        invariant
            i <= names@.len(),
            forall|k: int| 0 <= k < i ==> (#[trigger] names@[k]@) != name@,
        decreases names@.len() - i,
    {
        if str_eq(names[i].as_str(), name) {
            return Some(i);
        }
        i = i + 1;
    }
    None
}

/// Build the dependency graph of the workspace.
///
/// One node per explicit project; for each project, edges to the
/// workspace dependencies of its first matching inferred project.  A
/// dependency naming no project is a fatal error, as is a duplicated
/// project name.  Cycles are detected and stored, not fatal here.
pub fn build_dependency_graph(workspace: &mut Workspace) -> (r: Result<(), String>)
    ensures
        final(workspace).root == old(workspace).root,
        final(workspace).projects == old(workspace).projects,
        final(workspace).inferred_projects == old(workspace).inferred_projects,
        match r {
            Ok(()) => {
                &&& final(workspace).graph_ok()
                &&& forall|i: int, d: int| !(#[trigger] dep_unresolved(old(workspace), i, d))
                &&& (old(workspace).projects@.len() == 0 ==> final(workspace).dep_graph is None
                    && final(workspace).dependency_cycles@.len() == 0)
                &&& (old(workspace).projects@.len() > 0 ==> (final(workspace).dep_graph matches
                Some(g) && g.nodes@.len() == old(workspace).projects@.len() && (forall|i: int|
                    0 <= i < g.nodes@.len() ==> #[trigger] g.name_of(i) == old(
                        workspace,
                    ).projects@[i].name@) && (forall|u: int, v: int|
                    #[trigger] g.has_edge(u, v) <==> (0 <= u < g.nodes@.len() && 0 <= v
                        < g.nodes@.len() && views(derived_deps(old(workspace), g.name_of(u))).contains(
                        g.name_of(v),
                    )))))
            },
            Err(m) => {
                &&& final(workspace).dep_graph == old(workspace).dep_graph
                &&& final(workspace).dependency_cycles == old(workspace).dependency_cycles
                &&& ((exists|i: int, j: int|
                    0 <= i < j < old(workspace).projects@.len() && (#[trigger] old(
                        workspace,
                    ).projects@[i].name@) == (#[trigger] old(workspace).projects@[j].name@)) || (
                exists|i: int, d: int|
                    #[trigger] dep_unresolved(old(workspace), i, d) && m@ == msg_missing_dep(
                        old(workspace).projects@[i].name@,
                        derived_deps(old(workspace), old(workspace).projects@[i].name@)[d]@,
                    )))
            },
        },
{
    let n = workspace.projects.len();
    let mut nodes: Vec<String> = Vec::new();
    let mut i: usize = 0;
    while i < n
        invariant
            n == workspace.projects@.len(),
            i <= n,
            nodes@.len() == i,
            forall|k: int| 0 <= k < i ==> (#[trigger] nodes@[k]@) == workspace.projects@[k].name@,
        decreases n - i,
    {
        nodes.push(workspace.projects[i].name.clone());
        i = i + 1;
    }
    // reject duplicated names
    let mut a: usize = 0;
    while a < n
        invariant
            n == workspace.projects@.len(),
            a <= n,
            nodes@.len() == n,
            forall|k: int| 0 <= k < n ==> (#[trigger] nodes@[k]@) == workspace.projects@[k].name@,
            forall|x: int, y: int| 0 <= x < y < n && x < a ==> nodes@[x]@ != nodes@[y]@,
        decreases n - a,
    {
        let mut b: usize = a + 1;
        while b < n
            invariant
                n == workspace.projects@.len(),
                a < n,
                a < b,
                b <= n,
                nodes@.len() == n,
                forall|k: int|
                    0 <= k < n ==> (#[trigger] nodes@[k]@) == workspace.projects@[k].name@,
                forall|y: int| a < y < b ==> nodes@[a as int]@ != nodes@[y]@,
            decreases n - b,
        {
            if str_eq(nodes[a].as_str(), nodes[b].as_str()) {
                let mut m = String::new();
                m.append("Duplicate project name '");
                m.append(nodes[a].as_str());
                m.append("'");
                proof {
                    assert(m@ =~= msg_duplicate_project(nodes@[a as int]@));
                    assert(workspace.projects@[a as int].name@ == workspace.projects@[
                        b as int].name@);
                }
                return Err(m);
            }
            b = b + 1;
        }
        a = a + 1;
    }
    // derive the edges
    let mut edges: Vec<Vec<usize>> = Vec::new();
    let mut u: usize = 0;
    while u < n
        invariant
            n == workspace.projects@.len(),
            u <= n,
            nodes@.len() == n,
            forall|k: int| 0 <= k < n ==> (#[trigger] nodes@[k]@) == workspace.projects@[k].name@,
            forall|x: int, y: int| 0 <= x < y < n ==> nodes@[x]@ != nodes@[y]@,
            edges@.len() == u,
            forall|x: int, k: int|
                0 <= x < u && 0 <= k < edges@[x]@.len() ==> (#[trigger] edges@[x]@[k] as int) < n,
            forall|x: int|
                0 <= x < u ==> row_edges_match(workspace, nodes@, #[trigger] edges@[x]@, x),
            forall|x: int, d: int| 0 <= x < u ==> !(#[trigger] dep_unresolved(workspace, x, d)),
        decreases n - u,
    {
        let mut row: Vec<usize> = Vec::new();
        let deps_opt = find_inferred(&workspace.inferred_projects, nodes[u].as_str());
        match deps_opt {
            Some(ip) => {
                let deps = &ip.workspace_dependencies;
                let mut d: usize = 0;
                while d < deps.len()
                    invariant
                        n == workspace.projects@.len(),
                        (u as int) < n,
                        nodes@.len() == n,
                        forall|k: int|
                            0 <= k < n ==> (#[trigger] nodes@[k]@) == workspace.projects@[k].name@,
                        forall|x: int, y: int| 0 <= x < y < n ==> nodes@[x]@ != nodes@[y]@,
                        d <= deps@.len(),
                        deps@ == derived_deps(workspace, nodes@[u as int]@),
                        row@.len() == d,
                        forall|dd: int|
                            0 <= dd < d ==> (#[trigger] row@[dd] as int) < n && nodes@[row@[
                                dd] as int]@ == deps@[dd]@,
                    decreases deps@.len() - d,
                {
                    match find_name(&nodes, deps[d].as_str()) {
                        Some(v) => {
                            row.push(v);
                        },
                        None => {
                            proof {
                                assert forall|p: int|
                                    0 <= p < workspace.projects@.len() implies (
                                #[trigger] workspace.projects@[p].name@) != deps@[d as int]@ by {
                                    assert(nodes@[p]@ == workspace.projects@[p].name@);
                                }
                                assert(dep_unresolved(workspace, u as int, d as int));
                            }
                            return Err(
                                missing_dep_message(nodes[u].as_str(), deps[d].as_str()),
                            );
                        },
                    }
                    d = d + 1;
                }
                proof {
                    assert forall|v: int|
                        #![trigger nodes@[v]]
                        0 <= v < nodes@.len() implies ((exists|k: int|
                        0 <= k < row@.len() && (#[trigger] row@[k] as int) == v) <==> views(
                        derived_deps(workspace, nodes@[u as int]@),
                    ).contains(nodes@[v]@)) by {
                        if exists|k: int| 0 <= k < row@.len() && (#[trigger] row@[k] as int) == v {
                            let k = choose|k: int|
                                0 <= k < row@.len() && (#[trigger] row@[k] as int) == v;
                            assert(nodes@[v]@ == deps@[k]@);
                            assert(views(deps@)[k] == nodes@[v]@);
                            assert(views(deps@).contains(nodes@[v]@));
                        }
                        if views(deps@).contains(nodes@[v]@) {
                            let dd = choose|dd: int|
                                0 <= dd < views(deps@).len() && #[trigger] views(deps@)[dd]
                                    == nodes@[v]@;
                            assert(nodes@[row@[dd] as int]@ == deps@[dd]@);
                            assert(nodes@[row@[dd] as int]@ == nodes@[v]@);
                            assert((row@[dd] as int) == v);
                        }
                    }
                    assert(row_edges_match(workspace, nodes@, row@, u as int));
                    // every derived dependency of this project named a node
                    assert forall|d2: int| !(#[trigger] dep_unresolved(
                        workspace,
                        u as int,
                        d2,
                    )) by {
                        if dep_unresolved(workspace, u as int, d2) {
                            assert(nodes@[u as int]@ == workspace.projects@[u as int].name@);
                            assert(0 <= d2 < deps@.len());
                            assert(nodes@[row@[d2] as int]@ == deps@[d2]@);
                            assert(workspace.projects@[row@[d2] as int].name@ == deps@[d2]@);
                            assert(false);
                        }
                    }
                }
            },
            None => {
                proof {
                    assert(derived_deps(workspace, nodes@[u as int]@).len() == 0);
                    assert forall|v: int| #![trigger nodes@[v]] 0 <= v < nodes@.len() implies !views(
                        derived_deps(workspace, nodes@[u as int]@),
                    ).contains(nodes@[v]@) by {}
                    assert(row_edges_match(workspace, nodes@, row@, u as int));
                    assert forall|d2: int| !(#[trigger] dep_unresolved(
                        workspace,
                        u as int,
                        d2,
                    )) by {
                        if dep_unresolved(workspace, u as int, d2) {
                            assert(nodes@[u as int]@ == workspace.projects@[u as int].name@);
                            assert(derived_deps(
                                workspace,
                                workspace.projects@[u as int].name@,
                            ).len() == 0);
                        }
                    }
                }
            },
        }
        let ghost rowv = row@;
        let ghost pre_edges = edges@;
        edges.push(row);
        proof {
            assert forall|x: int| 0 <= x < u + 1 implies row_edges_match(
                workspace,
                nodes@,
                #[trigger] edges@[x]@,
                x,
            ) by {
                if x == u as int {
                    assert(edges@[x]@ == rowv);
                    assert(row_edges_match(workspace, nodes@, rowv, x));
                } else {
                    assert(edges@[x]@ == pre_edges[x]@);
                    assert(row_edges_match(workspace, nodes@, pre_edges[x]@, x));
                }
            }
        }
        u = u + 1;
    }
    if n == 0 {
        // an empty workspace has no graph to offer
        proof {
            assert forall|i: int, d: int| !(#[trigger] dep_unresolved(workspace, i, d)) by {}
        }
        workspace.dep_graph = None;
        workspace.dependency_cycles = Vec::new();
        return Ok(());
    }
    let g = DepGraph { nodes, edges };
    proof {
        assert(g.wf());
        assert forall|uu: int, vv: int| #[trigger] g.has_edge(uu, vv) <==> (0 <= uu < g.nodes@.len()
            && 0 <= vv < g.nodes@.len() && views(derived_deps(workspace, g.name_of(uu))).contains(
            g.name_of(vv),
        )) by {
            if 0 <= uu < g.nodes@.len() && 0 <= vv < g.nodes@.len() {
                assert(row_edges_match(workspace, nodes@, g.edges@[uu]@, uu));
                assert(nodes@[vv]@ == g.name_of(vv));
                if g.has_edge(uu, vv) {
                    let k = choose|k: int|
                        0 <= k < g.edges@[uu]@.len() && (#[trigger] g.edges@[uu]@[k] as int) == vv;
                }
            } else {
                if g.has_edge(uu, vv) {
                    let k = choose|k: int|
                        0 <= k < g.edges@[uu]@.len() && (#[trigger] g.edges@[uu]@[k] as int) == vv;
                    assert(0 <= vv < g.nodes@.len());
                }
            }
        }
    }
    let cycles = find_cycles(&g);
    workspace.dep_graph = Some(g);
    workspace.dependency_cycles = cycles;
    Ok(())
}

/// Some marked node carries a name listed in the cycle.
pub open spec fn cycle_intersects(g: &DepGraph, marks: Seq<bool>, c: Seq<Seq<char>>) -> bool {
    exists|u: int| 0 <= u < g.n() && #[trigger] marks[u] && c.contains(g.name_of(u))
}

/// The stored cycles that touch a marked node, in stored order.
pub open spec fn relevant_cycles(g: &DepGraph, marks: Seq<bool>, cs: Seq<Seq<Seq<char>>>) -> Seq<
    Seq<Seq<char>>,
>
    decreases cs.len(),
{
    if cs.len() == 0 {
        Seq::empty()
    } else if cycle_intersects(g, marks, cs.last()) {
        relevant_cycles(g, marks, cs.drop_last()).push(cs.last())
    } else {
        relevant_cycles(g, marks, cs.drop_last())
    }
}

/// A cycle that intersects the marks keeps the relevant list nonempty.
proof fn lemma_relevant_nonempty(g: &DepGraph, marks: Seq<bool>, cs: Seq<Seq<Seq<char>>>, c: int)
    requires
        0 <= c < cs.len(),
        cycle_intersects(g, marks, cs[c]),
    ensures
        relevant_cycles(g, marks, cs).len() > 0,
    decreases cs.len(),
{
    if c < cs.len() - 1 {
        assert(cs.drop_last()[c] == cs[c]);
        lemma_relevant_nonempty(g, marks, cs.drop_last(), c);
    }
}

/// Whether a stored cycle touches a marked node.
fn cycle_touches_marks(g: &DepGraph, marks: &Vec<bool>, c: &Vec<String>) -> (r: bool)
    requires
        g.wf(),
        marks@.len() == g.n(),
    ensures
        r == cycle_intersects(g, marks@, views(c@)),
{
    let mut i: usize = 0;
    while i < c.len()
        invariant
            g.wf(),
            marks@.len() == g.n(),
            i <= c@.len(),
            forall|u: int|
                0 <= u < g.n() && #[trigger] marks@[u] ==> forall|j: int|
                    0 <= j < i ==> g.name_of(u) != (#[trigger] c@[j]@),
        decreases c@.len() - i,
    {
        match g.find_node(c[i].as_str()) {
            Some(u) => {
                if marks[u] {
                    proof {
                        assert(views(c@)[i as int] == c@[i as int]@);
                        assert(views(c@).contains(g.name_of(u as int)));
                    }
                    return true;
                }
                proof {
                    assert forall|uu: int| 0 <= uu < g.n() && #[trigger] marks@[uu] implies forall|
                        j: int,
                    | 0 <= j < i + 1 ==> g.name_of(uu) != (#[trigger] c@[j]@) by {
                        assert forall|j: int| 0 <= j < i + 1 implies g.name_of(uu) != (
                        #[trigger] c@[j]@) by {
                            if j == i as int && g.name_of(uu) == c@[j]@ {
                                assert(g.name_of(uu) == g.name_of(u as int));
                                assert(uu == u as int);
                            }
                        }
                    }
                }
            },
            None => {
                proof {
                    assert forall|uu: int| 0 <= uu < g.n() && #[trigger] marks@[uu] implies forall|
                        j: int,
                    | 0 <= j < i + 1 ==> g.name_of(uu) != (#[trigger] c@[j]@) by {
                        assert forall|j: int| 0 <= j < i + 1 implies g.name_of(uu) != (
                        #[trigger] c@[j]@) by {
                            if j == i as int && g.name_of(uu) == c@[j]@ {
                                assert(false);
                            }
                        }
                    }
                }
            },
        }
        i = i + 1;
    }
    proof {
        if cycle_intersects(g, marks@, views(c@)) {
            let u = choose|u: int|
                0 <= u < g.n() && #[trigger] marks@[u] && views(c@).contains(g.name_of(u));
            let j = choose|j: int|
                0 <= j < views(c@).len() && #[trigger] views(c@)[j] == g.name_of(u);
            assert(c@[j]@ == g.name_of(u));
        }
    }
    false
}

/// Every target names some node of the graph.
/// Some node of the graph carries the name `x`.
pub open spec fn name_known(g: &DepGraph, x: Seq<char>) -> bool {
    exists|s: int| 0 <= s < g.n() && (#[trigger] g.name_of(s)) == x
}

pub open spec fn all_targets_known(g: &DepGraph, targets: Seq<String>) -> bool {
    forall|t: int| 0 <= t < targets.len() ==> name_known(g, #[trigger] targets[t]@)
}

/// Package the node-per-target mapping into the known-targets predicate.
proof fn lemma_targets_known(g: &DepGraph, targets: Seq<String>, starts: Seq<usize>)
    requires
        starts.len() == targets.len(),
        forall|k: int|
            0 <= k < starts.len() ==> (#[trigger] starts[k] as int) < g.n() && g.name_of(
                starts[k] as int,
            ) == targets[k]@,
    ensures
        all_targets_known(g, targets),
{
    assert forall|t: int| 0 <= t < targets.len() implies name_known(g, #[trigger] targets[t]@) by {
        assert(g.name_of(starts[t] as int) == targets[t]@);
    }
}

/// Some node reachable from a named target.
pub open spec fn target_reaches(g: &DepGraph, targets: Seq<String>, u: int) -> bool {
    exists|t: int, s: int|
        0 <= t < targets.len() && 0 <= s < g.n() && (#[trigger] g.name_of(s)) == (
        #[trigger] targets[t]@) && g.reaches(s, u)
}

/// The marks of all nodes reachable from the targets.
pub open spec fn target_marks(g: &DepGraph, targets: Seq<String>) -> Seq<bool> {
    Seq::new(g.n() as nat, |u: int| target_reaches(g, targets, u))
}

/// No node reachable from the targets carries a name listed in the stored
/// cycles.
pub open spec fn no_cycle_reached(w: &Workspace, targets: Seq<String>) -> bool {
    let g = w.dep_graph->Some_0;
    forall|u: int|
        0 <= u < g.n() && target_reaches(&g, targets, u) ==> !in_name_lists(
            w.dependency_cycles@,
            #[trigger] g.name_of(u),
        )
}

/// A flat ordering of the reachable set: every entry is reachable, every
/// reachable node occurs exactly once, and no entry has an edge to a later
/// entry (dependencies come first).
pub open spec fn recursive_deps_witness(
    g: &DepGraph,
    targets: Seq<String>,
    ord: Seq<int>,
    res: Seq<String>,
) -> bool {
    &&& ord.len() == res.len()
    &&& forall|x: int|
        0 <= x < ord.len() ==> 0 <= (#[trigger] ord[x]) < g.n() && res[x]@ == g.name_of(ord[x])
            && target_reaches(g, targets, ord[x])
    &&& forall|u: int|
        0 <= u < g.n() && target_reaches(g, targets, u) ==> exists|x: int|
            0 <= x < ord.len() && (#[trigger] ord[x]) == u
    &&& forall|x: int, y: int| 0 <= x < y < ord.len() ==> ord[x] != ord[y]
    &&& forall|x: int, y: int|
        0 <= x < y < ord.len() ==> !g.has_edge(#[trigger] ord[x], #[trigger] ord[y])
}

/// A node of some level strictly before position `(li, a)` equals `u`.
pub open spec fn in_level_prefix(
    levels: Seq<Vec<usize>>,
    li: int,
    a: int,
    u: int,
) -> bool {
    exists|lj: int, b: int|
        0 <= lj < levels.len() && 0 <= b < levels[lj]@.len() && (lj < li || (lj == li && b < a))
            && (#[trigger] levels[lj]@[b] as int) == u
}

/// Flatten dependency levels into one leaves-first name list.
fn flatten_levels(g: &DepGraph, levels: &Vec<Vec<usize>>, sel: &Vec<bool>) -> (r: (
    Vec<String>,
    Ghost<Seq<int>>,
))
    requires
        g.wf(),
        sel@.len() == g.n(),
        levels_wf(g, sel@, levels@),
        levels_respect_edges(g, sel@, levels@),
        forall|u: int| 0 <= u < g.n() && sel@[u] ==> appears(levels@, u),
    ensures
        ({
            let (res, ord) = r;
            &&& ord@.len() == res@.len()
            &&& forall|x: int|
                0 <= x < ord@.len() ==> 0 <= (#[trigger] ord@[x]) < g.n() && res@[x]@ == g.name_of(
                    ord@[x],
                ) && sel@[ord@[x]]
            &&& forall|u: int|
                0 <= u < g.n() && sel@[u] ==> exists|x: int|
                    0 <= x < ord@.len() && (#[trigger] ord@[x]) == u
            &&& forall|x: int, y: int| 0 <= x < y < ord@.len() ==> ord@[x] != ord@[y]
            &&& forall|x: int, y: int|
                0 <= x < y < ord@.len() ==> !g.has_edge(#[trigger] ord@[x], #[trigger] ord@[y])
        }),
{
    let mut res: Vec<String> = Vec::new();
    let ghost mut ord: Seq<int> = Seq::empty();
    let mut li: usize = 0;
    while li < levels.len()
        invariant
            g.wf(),
            sel@.len() == g.n(),
            levels_wf(g, sel@, levels@),
            levels_respect_edges(g, sel@, levels@),
            li <= levels@.len(),
            ord.len() == res@.len(),
            forall|x: int|
                0 <= x < ord.len() ==> 0 <= (#[trigger] ord[x]) < g.n() && res@[x]@ == g.name_of(
                    ord[x],
                ) && sel@[ord[x]],
            forall|x: int| 0 <= x < ord.len() ==> in_level_prefix(levels@, li as int, 0, ord[x]),
            forall|u: int|
                #![trigger in_level_prefix(levels@, li as int, 0, u)]
                in_level_prefix(levels@, li as int, 0, u) ==> exists|x: int|
                    0 <= x < ord.len() && (#[trigger] ord[x]) == u,
            forall|x: int, y: int| 0 <= x < y < ord.len() ==> ord[x] != ord[y],
            forall|x: int, y: int|
                0 <= x < y < ord.len() ==> !g.has_edge(#[trigger] ord[x], #[trigger] ord[y]),
        decreases levels@.len() - li,
    {
        let mut a: usize = 0;
        while a < levels[li].len()
            invariant
                g.wf(),
                sel@.len() == g.n(),
                levels_wf(g, sel@, levels@),
                levels_respect_edges(g, sel@, levels@),
                (li as int) < levels@.len(),
                a <= levels@[li as int]@.len(),
                ord.len() == res@.len(),
                forall|x: int|
                    0 <= x < ord.len() ==> 0 <= (#[trigger] ord[x]) < g.n() && res@[x]@
                        == g.name_of(ord[x]) && sel@[ord[x]],
                forall|x: int|
                    0 <= x < ord.len() ==> in_level_prefix(levels@, li as int, a as int, ord[x]),
                forall|u: int|
                    #![trigger in_level_prefix(levels@, li as int, a as int, u)]
                    in_level_prefix(levels@, li as int, a as int, u) ==> exists|x: int|
                        0 <= x < ord.len() && (#[trigger] ord[x]) == u,
                forall|x: int, y: int| 0 <= x < y < ord.len() ==> ord[x] != ord[y],
                forall|x: int, y: int|
                    0 <= x < y < ord.len() ==> !g.has_edge(#[trigger] ord[x], #[trigger] ord[y]),
            decreases levels@[li as int]@.len() - a,
        {
            let u = levels[li][a];
            let ghost ord0 = ord;
            res.push(g.nodes[u].clone());
            proof {
                ord = ord.push(u as int);
                assert((levels@[li as int]@[a as int] as int) == u as int);
                // the new entry has no incoming edge from the earlier ones
                assert forall|x: int, y: int| 0 <= x < y < ord.len() implies !g.has_edge(
                    #[trigger] ord[x],
                    #[trigger] ord[y],
                ) by {
                    if y == ord.len() - 1 {
                        if g.has_edge(ord[x], u as int) {
                            let (lj, b) = choose|lj: int, b: int|
                                0 <= lj < levels@.len() && 0 <= b < levels@[lj]@.len() && (lj
                                    < li as int || (lj == li as int && b < a as int)) && (
                                #[trigger] levels@[lj]@[b] as int) == ord0[x];
                            assert(g.has_edge(levels@[lj]@[b] as int, u as int));
                            assert(sel@[u as int]);
                            let (lk, bb) = choose|lk: int, bb: int|
                                0 <= lk < lj && 0 <= bb < levels@[lk]@.len() && (
                                #[trigger] levels@[lk]@[bb] as int) == u as int;
                            // u occurs both at (li, a) and at (lk, bb) with lk < li
                            assert(lk != li as int || bb != a as int);
                            assert(false);
                        }
                    }
                }
                // distinctness: u is not an earlier entry
                assert forall|x: int, y: int| 0 <= x < y < ord.len() implies ord[x] != ord[y] by {
                    if y == ord.len() - 1 {
                        if ord[x] == u as int {
                            let (lj, b) = choose|lj: int, b: int|
                                0 <= lj < levels@.len() && 0 <= b < levels@[lj]@.len() && (lj
                                    < li as int || (lj == li as int && b < a as int)) && (
                                #[trigger] levels@[lj]@[b] as int) == ord0[x];
                            assert(lj != li as int || b != a as int);
                            assert(false);
                        }
                    }
                }
                // prefix membership of every entry, old and new
                assert forall|x: int| 0 <= x < ord.len() implies in_level_prefix(
                    levels@,
                    li as int,
                    a + 1,
                    ord[x],
                ) by {
                    if x < ord0.len() {
                        let (lj, b) = choose|lj: int, b: int|
                            0 <= lj < levels@.len() && 0 <= b < levels@[lj]@.len() && (lj
                                < li as int || (lj == li as int && b < a as int)) && (
                            #[trigger] levels@[lj]@[b] as int) == ord0[x];
                        assert((levels@[lj]@[b] as int) == ord[x]);
                    } else {
                        assert((levels@[li as int]@[a as int] as int) == ord[x]);
                    }
                }
                assert forall|u2: int| #![trigger in_level_prefix(levels@, li as int, a + 1, u2)]
                    in_level_prefix(levels@, li as int, a + 1, u2) implies exists|x: int|
                    0 <= x < ord.len() && (#[trigger] ord[x]) == u2 by {
                    let (lj, b) = choose|lj: int, b: int|
                        0 <= lj < levels@.len() && 0 <= b < levels@[lj]@.len() && (lj < li as int
                            || (lj == li as int && b < a + 1)) && (
                        #[trigger] levels@[lj]@[b] as int) == u2;
                    if lj == li as int && b == a as int {
                        assert(ord[ord.len() - 1] == u2);
                    } else {
                        assert(in_level_prefix(levels@, li as int, a as int, u2));
                        let x = choose|x: int| 0 <= x < ord0.len() && (#[trigger] ord0[x]) == u2;
                        assert(ord[x] == u2);
                    }
                }
            }
            a = a + 1;
        }
        proof {
            assert forall|x: int| 0 <= x < ord.len() implies in_level_prefix(
                levels@,
                li + 1,
                0,
                ord[x],
            ) by {
                let (lj, b) = choose|lj: int, b: int|
                    0 <= lj < levels@.len() && 0 <= b < levels@[lj]@.len() && (lj < li as int || (
                    lj == li as int && b < levels@[li as int]@.len())) && (
                    #[trigger] levels@[lj]@[b] as int) == ord[x];
                assert(lj < li + 1);
            }
            assert forall|u2: int| #![trigger in_level_prefix(levels@, li + 1, 0, u2)]
                in_level_prefix(levels@, li + 1, 0, u2) implies exists|x: int|
                0 <= x < ord.len() && (#[trigger] ord[x]) == u2 by {
                let (lj, b) = choose|lj: int, b: int|
                    0 <= lj < levels@.len() && 0 <= b < levels@[lj]@.len() && (lj < li + 1) && (
                    #[trigger] levels@[lj]@[b] as int) == u2;
                assert(in_level_prefix(levels@, li as int, levels@[li as int]@.len() as int, u2));
            }
        }
        li = li + 1;
    }
    proof {
        assert forall|u: int| 0 <= u < g.n() && sel@[u] implies exists|x: int|
            0 <= x < ord.len() && (#[trigger] ord[x]) == u by {
            assert(appears(levels@, u));
            let (lj, b) = choose|lj: int, b: int|
                0 <= lj < levels@.len() && 0 <= b < levels@[lj]@.len() && (
                #[trigger] levels@[lj]@[b] as int) == u;
            assert(in_level_prefix(levels@, levels@.len() as int, 0, u));
        }
    }
    (res, Ghost(ord))
}

/// What a successful dependency resolution returns: the graph is present,
/// every target is a node, nothing reachable lies on a stored cycle, and
/// the result enumerates the reachable set dependencies-first.
pub open spec fn recursive_deps_ok(w: &Workspace, targets: Seq<String>, res: Seq<String>) -> bool {
    let g = w.dep_graph->Some_0;
    &&& w.dep_graph is Some
    &&& all_targets_known(&g, targets)
    &&& no_cycle_reached(w, targets)
    &&& exists|ord: Seq<int>| recursive_deps_witness(&g, targets, ord, res)
}

/// Why a dependency resolution fails: no graph yet, an unknown target, or
/// a stored cycle touching the reachable set, each with its exact message.
pub open spec fn recursive_deps_failure(w: &Workspace, targets: Seq<String>, m: Seq<char>) -> bool {
    let g = w.dep_graph->Some_0;
    ||| (w.dep_graph is None && m == msg_no_graph())
    ||| (w.dep_graph is Some && (exists|t: int|
        0 <= t < targets.len() && (forall|s: int|
            0 <= s < g.n() ==> (#[trigger] g.name_of(s)) != targets[t]@) && m
            == msg_target_not_found(#[trigger] targets[t]@)))
    ||| (w.dep_graph is Some && all_targets_known(&g, targets) && (exists|u: int|
        0 <= u < g.n() && #[trigger] target_reaches(&g, targets, u) && in_name_lists(
            w.dependency_cycles@,
            g.name_of(u),
        )) && m == msg_circular(
        relevant_cycles(&g, target_marks(&g, targets), list_views(w.dependency_cycles@)),
    ))
}

/// All recursive dependencies of the targets, dependencies first.
///
/// Fails when the graph is missing, a target is unknown, or any stored
/// cycle touches the reachable set; otherwise returns every project
/// reachable from the targets (the targets included), ordered so that no
/// project precedes one of its own dependencies.
#[verifier::rlimit(100)]
#[verifier::spinoff_prover]
pub fn get_recursive_dependencies(workspace: &Workspace, targets: &Vec<String>) -> (r: Result<
    Vec<String>,
    String,
>)
    requires
        workspace.graph_ok(),
    ensures
        match r {
            Ok(res) => recursive_deps_ok(workspace, targets@, res@),
            Err(m) => recursive_deps_failure(workspace, targets@, m@),
        },
{
    let g = match &workspace.dep_graph {
        Some(g) => g,
        None => {
            let m = "Dependency graph not built. Call build_dependency_graph first.".to_owned();
            proof {
                assert(recursive_deps_failure(workspace, targets@, m@));
            }
            return Err(m);
        },
    };
    proof {
        assert(workspace.dep_graph == Some(*g));
    }
    // resolve the targets to nodes
    let mut starts: Vec<usize> = Vec::new();
    let mut t: usize = 0;
    while t < targets.len()
        invariant
            g.wf(),
            workspace.dep_graph == Some(*g),
            t <= targets@.len(),
            starts@.len() == t,
            forall|k: int|
                0 <= k < t ==> (#[trigger] starts@[k] as int) < g.n() && g.name_of(
                    starts@[k] as int,
                ) == targets@[k]@,
        decreases targets@.len() - t,
    {
        match g.find_node(targets[t].as_str()) {
            Some(u) => {
                starts.push(u);
            },
            None => {
                let mut m = String::new();
                m.append("Target project '");
                m.append(targets[t].as_str());
                m.append("' not found in workspace");
                proof {
                    let gg = workspace.dep_graph->Some_0;
                    assert(gg == *g);
                    assert(m@ =~= msg_target_not_found(targets@[t as int]@));
                    assert(forall|s: int|
                        0 <= s < gg.n() ==> (#[trigger] gg.name_of(s)) != targets@[t as int]@);
                    assert(exists|t2: int|
                        0 <= t2 < targets@.len() && (forall|s: int|
                            0 <= s < gg.n() ==> (#[trigger] gg.name_of(s)) != targets@[t2]@) && m@
                            == msg_target_not_found(#[trigger] targets@[t2]@));
                    assert(recursive_deps_failure(workspace, targets@, m@));
                }
                return Err(m);
            },
        }
        t = t + 1;
    }
    proof {
        lemma_targets_known(g, targets@, starts@);
    }
    let marks = reachable_from(g, &starts);
    proof {
        // the computed marks are exactly the target-reachability marks
        assert forall|u: int| 0 <= u < g.n() implies (marks@[u] == target_reaches(
            g,
            targets@,
            u,
        )) by {
            if marks@[u] {
                let i = choose|i: int|
                    0 <= i < starts@.len() && g.reaches(#[trigger] starts@[i] as int, u);
                assert(g.name_of(starts@[i] as int) == targets@[i]@);
            }
            if target_reaches(g, targets@, u) {
                let (tt, s) = choose|tt: int, s: int|
                    0 <= tt < targets@.len() && 0 <= s < g.n() && (#[trigger] g.name_of(s)) == (
                    #[trigger] targets@[tt]@) && g.reaches(s, u);
                assert(g.name_of(starts@[tt] as int) == targets@[tt]@);
                assert((starts@[tt] as int) == s);
            }
        }
        assert(marks@ =~= target_marks(g, targets@));
    }
    // collect the stored cycles that touch the reachable set
    let mut relevant: Vec<Vec<String>> = Vec::new();
    let mut ci: usize = 0;
    while ci < workspace.dependency_cycles.len()
        invariant
            g.wf(),
            marks@.len() == g.n(),
            ci <= workspace.dependency_cycles@.len(),
            list_views(relevant@) == relevant_cycles(
                g,
                marks@,
                list_views(workspace.dependency_cycles@.subrange(0, ci as int)),
            ),
        decreases workspace.dependency_cycles@.len() - ci,
    {
        let ghost prefix = list_views(workspace.dependency_cycles@.subrange(0, ci as int));
        let ghost rel0 = relevant@;
        let hit = cycle_touches_marks(g, &marks, &workspace.dependency_cycles[ci]);
        if hit {
            relevant.push(clone_strings(&workspace.dependency_cycles[ci]));
        }
        proof {
            let ext = list_views(workspace.dependency_cycles@.subrange(0, ci + 1));
            assert(ext.drop_last() =~= prefix);
            assert(ext.last() == views(workspace.dependency_cycles@[ci as int]@));
            if hit {
                assert(views(relevant@.last()@) == views(workspace.dependency_cycles@[
                    ci as int]@));
                assert(list_views(relevant@) =~= list_views(rel0).push(ext.last()));
            } else {
                assert(list_views(relevant@) =~= list_views(rel0));
            }
        }
        ci = ci + 1;
    }
    proof {
        assert(workspace.dependency_cycles@.subrange(0, workspace.dependency_cycles@.len() as int)
            =~= workspace.dependency_cycles@);
    }
    if relevant.len() > 0 {
        proof {
            assert forall|c: int| 0 <= c < relevant@.len() implies (
            #[trigger] relevant@[c]@.len()) > 0 by {
                lemma_relevant_cycles_member(
                    g,
                    marks@,
                    list_views(workspace.dependency_cycles@),
                    c,
                );
                assert(list_views(relevant@)[c] == views(relevant@[c]@));
                let i = choose|i: int|
                    0 <= i < list_views(workspace.dependency_cycles@).len() && #[trigger] list_views(
                        workspace.dependency_cycles@,
                    )[i] == list_views(relevant@)[c];
                assert(views(workspace.dependency_cycles@[i]@) == views(relevant@[c]@));
                assert(workspace.dependency_cycles@[i]@.len() > 0);
            }
        }
        // build the circular-dependency report
        let mut paths: Vec<String> = Vec::new();
        let mut pi: usize = 0;
        while pi < relevant.len()
            invariant
                pi <= relevant@.len(),
                forall|c: int|
                    0 <= c < relevant@.len() ==> (#[trigger] relevant@[c]@.len()) > 0,
                paths@.len() == pi,
                forall|c: int|
                    0 <= c < pi ==> (#[trigger] paths@[c]@) == cycle_path(views(relevant@[c]@)),
            decreases relevant@.len() - pi,
        {
            let cyc = &relevant[pi];
            let mut ring: Vec<String> = Vec::new();
            let mut k: usize = 0;
            while k < cyc.len()
                invariant
                    cyc == relevant@[pi as int],
                    (pi as int) < relevant@.len(),
                    relevant@[pi as int]@.len() > 0,
                    k <= cyc@.len(),
                    ring@.len() == k,
                    forall|x: int| 0 <= x < k ==> ring@[x] == cyc@[x],
                decreases cyc@.len() - k,
            {
                ring.push(cyc[k].clone());
                k = k + 1;
            }
            ring.push(cyc[0].clone());
            let path = join_strings(&ring, " -> ");
            proof {
                assert(views(ring@) =~= views(cyc@).push(views(cyc@)[0]));
                assert(path@ == cycle_path(views(relevant@[pi as int]@)));
            }
            paths.push(path);
            pi = pi + 1;
        }
        let body = join_strings(&paths, "; ");
        let mut m = String::new();
        m.append("Circular dependency detected: ");
        m.append(body.as_str());
        proof {
            assert(views(paths@) =~= list_views(relevant@).map_values(
                |c: Seq<Seq<char>>| cycle_path(c),
            )) by {
                assert forall|c: int| 0 <= c < paths@.len() implies views(paths@)[c]
                    == cycle_path(list_views(relevant@)[c]) by {
                    assert(views(paths@)[c] == paths@[c]@);
                    assert(list_views(relevant@)[c] == views(relevant@[c]@));
                }
            }
            assert(m@ =~= msg_circular(list_views(relevant@)));
            // a relevant cycle yields the witness required of a failure
            let c = list_views(relevant@)[0];
            assert(cycle_intersects(g, marks@, c)) by {
                lemma_relevant_cycles_sound(g, marks@, list_views(workspace.dependency_cycles@), 0);
            }
            let u = choose|u: int|
                0 <= u < g.n() && #[trigger] marks@[u] && c.contains(g.name_of(u));
            assert(in_name_lists(workspace.dependency_cycles@, g.name_of(u))) by {
                lemma_relevant_cycles_member(
                    g,
                    marks@,
                    list_views(workspace.dependency_cycles@),
                    0,
                );
                let i = choose|i: int|
                    0 <= i < list_views(workspace.dependency_cycles@).len() && #[trigger] list_views(
                        workspace.dependency_cycles@,
                    )[i] == c;
                assert(views(workspace.dependency_cycles@[i]@).contains(g.name_of(u)));
            }
            let gg = workspace.dep_graph->Some_0;
            assert(gg == *g);
            assert(target_reaches(&gg, targets@, u));
            assert(all_targets_known(&gg, targets@));
            assert(recursive_deps_failure(workspace, targets@, m@));
        }
        return Err(m);
    }
    // the reachable set is cycle-free: order it by dependency levels
    match topo_levels(g, &marks) {
        Some(levels) => {
            let (res, ord) = flatten_levels(g, &levels, &marks);
            proof {
                assert forall|x: int| 0 <= x < ord@.len() implies 0 <= (#[trigger] ord@[x]) < g.n()
                    && res@[x]@ == g.name_of(ord@[x]) && target_reaches(g, targets@, ord@[x]) by {
                    assert(marks@[ord@[x]]);
                }
                assert forall|u: int|
                    0 <= u < g.n() && target_reaches(g, targets@, u) implies exists|x: int|
                    0 <= x < ord@.len() && (#[trigger] ord@[x]) == u by {
                    assert(marks@[u]);
                }
                assert(recursive_deps_witness(g, targets@, ord@, res@));
                assert forall|u: int|
                    0 <= u < g.n() && target_reaches(g, targets@, u) implies !in_name_lists(
                    workspace.dependency_cycles@,
                    #[trigger] g.name_of(u),
                ) by {
                    if in_name_lists(workspace.dependency_cycles@, g.name_of(u)) {
                        let c = choose|c: int|
                            0 <= c < workspace.dependency_cycles@.len() && #[trigger] views(
                                workspace.dependency_cycles@[c]@,
                            ).contains(g.name_of(u));
                        assert(cycle_intersects(
                            g,
                            marks@,
                            views(workspace.dependency_cycles@[c]@),
                        ));
                        assert(list_views(workspace.dependency_cycles@)[c] == views(
                            workspace.dependency_cycles@[c]@,
                        ));
                        lemma_relevant_nonempty(
                            g,
                            marks@,
                            list_views(workspace.dependency_cycles@),
                            c,
                        );
                        assert(false);
                    }
                }
                assert(all_targets_known(g, targets@));
                assert(exists|ordw: Seq<int>| recursive_deps_witness(g, targets@, ordw, res@));
                let gg = workspace.dep_graph->Some_0;
                assert(gg == *g);
                assert(all_targets_known(&gg, targets@));
                assert(no_cycle_reached(workspace, targets@)) by {
                    assert forall|u: int|
                        0 <= u < gg.n() && target_reaches(&gg, targets@, u) implies !in_name_lists(
                        workspace.dependency_cycles@,
                        #[trigger] gg.name_of(u),
                    ) by {
                        assert(target_reaches(g, targets@, u));
                        assert(g.name_of(u) == gg.name_of(u));
                    }
                }
                assert(exists|ordw: Seq<int>| recursive_deps_witness(&gg, targets@, ordw, res@));
                assert(recursive_deps_ok(workspace, targets@, res@));
            }
            Ok(res)
        },
        None => {
            proof {
                let u = choose|u: int| 0 <= u < g.n() && #[trigger] marks@[u] && g.on_cycle(u);
                assert(g.name_on_cycle(g.name_of(u)));
                assert(in_name_lists(workspace.dependency_cycles@, g.name_of(u)));
                let c = choose|c: int|
                    0 <= c < workspace.dependency_cycles@.len() && #[trigger] views(
                        workspace.dependency_cycles@[c]@,
                    ).contains(g.name_of(u));
                assert(cycle_intersects(g, marks@, views(workspace.dependency_cycles@[c]@)));
                assert(list_views(workspace.dependency_cycles@)[c] == views(
                    workspace.dependency_cycles@[c]@,
                ));
                lemma_relevant_nonempty(g, marks@, list_views(workspace.dependency_cycles@), c);
                assert(false);
            }
            vstd::pervasive::unreached()
        },
    }
}

/// Every relevant cycle intersects the marks.
proof fn lemma_relevant_cycles_sound(g: &DepGraph, marks: Seq<bool>, cs: Seq<Seq<Seq<char>>>, c: int)
    requires
        0 <= c < relevant_cycles(g, marks, cs).len(),
    ensures
        cycle_intersects(g, marks, relevant_cycles(g, marks, cs)[c]),
    decreases cs.len(),
{
    if cs.len() > 0 {
        let rel = relevant_cycles(g, marks, cs);
        let rel0 = relevant_cycles(g, marks, cs.drop_last());
        if cycle_intersects(g, marks, cs.last()) {
            if c < rel0.len() {
                lemma_relevant_cycles_sound(g, marks, cs.drop_last(), c);
            }
        } else {
            lemma_relevant_cycles_sound(g, marks, cs.drop_last(), c);
        }
    }
}

/// Every relevant cycle is one of the stored cycles.
proof fn lemma_relevant_cycles_member(g: &DepGraph, marks: Seq<bool>, cs: Seq<Seq<Seq<char>>>, c: int)
    requires
        0 <= c < relevant_cycles(g, marks, cs).len(),
    ensures
        cs.contains(relevant_cycles(g, marks, cs)[c]),
    decreases cs.len(),
{
    if cs.len() > 0 {
        let rel0 = relevant_cycles(g, marks, cs.drop_last());
        if cycle_intersects(g, marks, cs.last()) && c == rel0.len() {
            assert(cs[cs.len() - 1] == relevant_cycles(g, marks, cs)[c]);
        } else {
            lemma_relevant_cycles_member(g, marks, cs.drop_last(), c);
            let i = choose|i: int|
                0 <= i < cs.drop_last().len() && cs.drop_last()[i] == relevant_cycles(
                    g,
                    marks,
                    cs,
                )[c];
            assert(cs[i] == relevant_cycles(g, marks, cs)[c]);
        }
    }
}


/// The name `x` is among the requested projects.
pub open spec fn name_selected(projects: Seq<String>, x: Seq<char>) -> bool {
    exists|p: int| 0 <= p < projects.len() && (#[trigger] projects[p]@) == x
}

/// Node `u` occurs somewhere in the integer level lists.
pub open spec fn in_int_levels(ls: Seq<Seq<int>>, u: int) -> bool {
    exists|li: int, a: int|
        0 <= li < ls.len() && 0 <= a < ls[li].len() && (#[trigger] ls[li][a]) == u
}

/// Node `v` occurs in a level strictly before index `li`.
pub open spec fn in_earlier_int_level(ls: Seq<Seq<int>>, li: int, v: int) -> bool {
    exists|lj: int, b: int|
        0 <= lj < li && lj < ls.len() && 0 <= b < ls[lj].len() && (#[trigger] ls[lj][b]) == v
}

/// The level decomposition behind a grouped name list: nonempty levels of
/// distinct selected nodes covering every selected node, each node's
/// selected dependencies sitting in strictly earlier levels.
pub open spec fn level_witness(
    g: &DepGraph,
    projects: Seq<String>,
    ls: Seq<Seq<int>>,
    out: Seq<Vec<String>>,
) -> bool {
    &&& ls.len() == out.len()
    &&& forall|li: int|
        0 <= li < ls.len() ==> (#[trigger] ls[li]).len() == out[li]@.len() && ls[li].len() > 0
    &&& forall|li: int, a: int|
        0 <= li < ls.len() && 0 <= a < ls[li].len() ==> 0 <= (#[trigger] ls[li][a]) < g.n()
            && out[li]@[a]@ == g.name_of(ls[li][a]) && name_selected(
            projects,
            g.name_of(ls[li][a]),
        )
    &&& forall|li: int, a: int, lj: int, b: int|
        0 <= li < ls.len() && 0 <= a < ls[li].len() && 0 <= lj < ls.len() && 0 <= b < ls[lj].len()
            && (li != lj || a != b) ==> (#[trigger] ls[li][a]) != (#[trigger] ls[lj][b])
    &&& forall|li: int, a: int, v: int|
        0 <= li < ls.len() && 0 <= a < ls[li].len() && #[trigger] g.has_edge(
            #[trigger] ls[li][a],
            v,
        ) && name_selected(projects, g.name_of(v)) ==> in_earlier_int_level(ls, li, v)
    &&& forall|u: int|
        0 <= u < g.n() && name_selected(projects, #[trigger] g.name_of(u)) ==> in_int_levels(
            ls,
            u,
        )
}

/// Error text when levels are requested before the graph exists.
pub open spec fn msg_no_graph_short() -> Seq<char> {
    "Dependency graph not built"@
}

/// Error text when the selected projects cannot be ordered.
pub open spec fn msg_level_cycle() -> Seq<char> {
    "Circular dependency among the selected projects"@
}

/// What a successful level grouping returns.
pub open spec fn level_grouping_ok(w: &Workspace, projects: Seq<String>, out: Seq<Vec<String>>) -> bool {
    &&& w.dep_graph is Some
    &&& exists|ls: Seq<Seq<int>>|
        level_witness(&w.dep_graph->Some_0, projects, ls, out)
}

/// Why a level grouping fails.
pub open spec fn level_grouping_failure(w: &Workspace, projects: Seq<String>, e: MartyError) -> bool {
    ||| (w.dep_graph is None && e.message_view() == msg_no_graph_short())
    ||| (w.dep_graph is Some && e.message_view() == msg_level_cycle() && (exists|u: int|
        0 <= u < w.dep_graph->Some_0.n() && name_selected(
            projects,
            #[trigger] w.dep_graph->Some_0.name_of(u),
        ) && w.dep_graph->Some_0.on_cycle(u)))
}

/// Whether some project in the list carries the given name.
fn contains_name(projects: &Vec<String>, name: &str) -> (r: bool)
    ensures
        r == name_selected(projects@, name@),
{
    let mut i: usize = 0;
    while i < projects.len()
        invariant
            i <= projects@.len(),
            forall|p: int| 0 <= p < i ==> (#[trigger] projects@[p]@) != name@,
        decreases projects@.len() - i,
    {
        if str_eq(projects[i].as_str(), name) {
            proof {
                assert(projects@[i as int]@ == name@);
            }
            return true;
        }
        i = i + 1;
    }
    false
}

/// Group the given projects into dependency levels, dependencies first.
///
/// Names that are not graph nodes are ignored.  Fails when the graph is
/// missing or when the selected projects sit on a dependency cycle.
pub fn group_by_dependency_levels(workspace: &Workspace, projects: &Vec<String>) -> (r: MartyResult<
    Vec<Vec<String>>,
>)
    requires
        workspace.graph_ok(),
    ensures
        match r {
            Ok(out) => level_grouping_ok(workspace, projects@, out@),
            Err(e) => level_grouping_failure(workspace, projects@, e),
        },
{
    let g = match &workspace.dep_graph {
        Some(g) => g,
        None => {
            let m = "Dependency graph not built".to_owned();
            proof {
                assert(level_grouping_failure(workspace, projects@, MartyError::Task(m)));
            }
            return Err(MartyError::Task(m));
        },
    };
    proof {
        assert(workspace.dep_graph == Some(*g));
    }
    let n = g.nodes.len();
    let mut sel: Vec<bool> = Vec::new();
    let mut u: usize = 0;
    while u < n
        invariant
            g.wf(),
            n == g.n(),
            u <= n,
            sel@.len() == u,
            forall|v: int|
                0 <= v < u ==> ((#[trigger] sel@[v]) <==> name_selected(projects@, g.name_of(v))),
        decreases n - u,
    {
        let hit = contains_name(projects, g.nodes[u].as_str());
        sel.push(hit);
        u = u + 1;
    }
    match topo_levels(g, &sel) {
        Some(levels) => {
            let mut out: Vec<Vec<String>> = Vec::new();
            let mut li: usize = 0;
            while li < levels.len()
                invariant
                    g.wf(),
                    n == g.n(),
                    sel@.len() == n,
                    levels_wf(g, sel@, levels@),
                    li <= levels@.len(),
                    out@.len() == li,
                    forall|l2: int|
                        0 <= l2 < li ==> (#[trigger] out@[l2]@.len()) == levels@[l2]@.len(),
                    forall|l2: int, a: int|
                        0 <= l2 < li && 0 <= a < out@[l2]@.len() ==> (#[trigger] out@[l2]@[a]@)
                            == g.name_of(levels@[l2]@[a] as int),
                decreases levels@.len() - li,
            {
                let mut lvl: Vec<String> = Vec::new();
                let mut a: usize = 0;
                while a < levels[li].len()
                    invariant
                        g.wf(),
                        n == g.n(),
                        sel@.len() == n,
                        levels_wf(g, sel@, levels@),
                        (li as int) < levels@.len(),
                        a <= levels@[li as int]@.len(),
                        lvl@.len() == a,
                        forall|b: int|
                            0 <= b < a ==> (#[trigger] lvl@[b]@) == g.name_of(levels@[
                                li as int]@[b] as int),
                    decreases levels@[li as int]@.len() - a,
                {
                    let node = levels[li][a];
                    lvl.push(g.nodes[node].clone());
                    a = a + 1;
                }
                out.push(lvl);
                li = li + 1;
            }
            proof {
                let gls = levels@.map_values(|lv: Vec<usize>| lv@.map_values(|x: usize| x as int));
                assert forall|l2: int| 0 <= l2 < gls.len() implies (#[trigger] gls[l2]).len()
                    == levels@[l2]@.len() && (forall|a: int|
                    0 <= a < gls[l2].len() ==> (#[trigger] gls[l2][a]) == levels@[l2]@[a] as int) by {
                    assert(gls[l2] == levels@[l2]@.map_values(|x: usize| x as int));
                }
                assert(level_witness(g, projects@, gls, out@)) by {
                    assert forall|l2: int| 0 <= l2 < gls.len() implies (#[trigger] gls[l2]).len()
                        == out@[l2]@.len() && gls[l2].len() > 0 by {}
                    assert forall|l2: int, a: int|
                        0 <= l2 < gls.len() && 0 <= a < gls[l2].len() implies 0 <= (
                    #[trigger] gls[l2][a]) < g.n() && out@[l2]@[a]@ == g.name_of(gls[l2][a])
                        && name_selected(projects@, g.name_of(gls[l2][a])) by {
                        assert(sel@[levels@[l2]@[a] as int]);
                    }
                    assert forall|li2: int, a: int, lj: int, b: int|
                        0 <= li2 < gls.len() && 0 <= a < gls[li2].len() && 0 <= lj < gls.len() && 0
                            <= b < gls[lj].len() && (li2 != lj || a != b) implies (
                    #[trigger] gls[li2][a]) != (#[trigger] gls[lj][b]) by {
                        assert((levels@[li2]@[a] as int) != (levels@[lj]@[b] as int));
                    }
                    assert forall|li2: int, a: int, v: int|
                        0 <= li2 < gls.len() && 0 <= a < gls[li2].len() && #[trigger] g.has_edge(
                            #[trigger] gls[li2][a],
                            v,
                        ) && name_selected(projects@, g.name_of(v)) implies in_earlier_int_level(
                        gls,
                        li2,
                        v,
                    ) by {
                        assert(0 <= v < g.n());
                        assert(sel@[v]);
                        let (lj, b) = choose|lj: int, b: int|
                            0 <= lj < li2 && 0 <= b < levels@[lj]@.len() && (
                            #[trigger] levels@[lj]@[b] as int) == v;
                        assert(gls[lj][b] == v);
                    }
                    assert forall|u2: int|
                        0 <= u2 < g.n() && name_selected(projects@, #[trigger] g.name_of(u2))
                            implies in_int_levels(gls, u2) by {
                        assert(sel@[u2]);
                        assert(appears(levels@, u2));
                        let (lj, b) = choose|lj: int, b: int|
                            0 <= lj < levels@.len() && 0 <= b < levels@[lj]@.len() && (
                            #[trigger] levels@[lj]@[b] as int) == u2;
                        assert(gls[lj][b] == u2);
                    }
                }
                let gg = workspace.dep_graph->Some_0;
                assert(gg == *g);
                assert(level_witness(&(workspace.dep_graph->Some_0), projects@, gls, out@));
                assert(level_grouping_ok(workspace, projects@, out@));
            }
            Ok(out)
        },
        None => {
            let m = "Circular dependency among the selected projects".to_owned();
            proof {
                let u2 = choose|u2: int| 0 <= u2 < g.n() && #[trigger] sel@[u2] && g.on_cycle(u2);
                let gg = workspace.dep_graph->Some_0;
                assert(gg == *g);
                assert(0 <= u2 < (workspace.dep_graph->Some_0).n() && name_selected(
                    projects@,
                    (workspace.dep_graph->Some_0).name_of(u2),
                ) && (workspace.dep_graph->Some_0).on_cycle(u2));
                assert(level_grouping_failure(workspace, projects@, MartyError::Task(m)));
            }
            Err(MartyError::Task(m))
        },
    }
}


} // verus!
