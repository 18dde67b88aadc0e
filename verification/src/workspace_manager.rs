//! The workspace manager: the high-level interface over a discovered
//! workspace, its merged task files, and its settings.

use vstd::prelude::*;
use crate::configs::{TaskConfig, TaskView, TasksFileConfig, WorkspaceConfig};
use crate::execution::{
    cmd_views, map_get_spec, runner_failure, runner_ok, SpawnCommand, TaskMap, TaskRunner,
};
use crate::protocol::Project;
use crate::results::{DependencyGraphResult, InferredProjectInfo, ProjectInfo, ProjectListResult};
use crate::task_execution::{
    filter_view, plan_failure, plan_ok, resolve_task_execution_plan, TaskExecutionPlan,
};
use crate::text::{clone_strings, str_find_char, substring, views};
use crate::types::{MartyError, MartyResult};
use crate::workspace::Workspace;

verus! {

/// How a workspace manager is initialized: the root under which the
/// workspace lives.
pub struct WorkspaceManagerConfig {
    pub workspace_root: String,
}

/// The workspace manager: a discovered workspace, the merged task files,
/// and the workspace settings.
pub struct WorkspaceManager {
    pub workspace: Workspace,
    pub task_configs: TasksFileConfig,
    pub workspace_config: WorkspaceConfig,
}

/// What a target splits into: the part before the first colon as the
/// project filter, the rest as the task name; no colon means no filter.
pub open spec fn target_has_filter(s: Seq<char>) -> bool {
    exists|i: int| 0 <= i < s.len() && s[i] == ':'
}

/// The index of the first colon.
pub open spec fn first_colon(s: Seq<char>) -> int {
    choose|i: int|
        0 <= i < s.len() && s[i] == ':' && (forall|j: int| 0 <= j < i ==> s[j] != ':')
}

/// The filter part of a target.
pub open spec fn target_filter(s: Seq<char>) -> Option<Seq<char>> {
    if target_has_filter(s) {
        Some(s.subrange(0, first_colon(s)))
    } else {
        None
    }
}

/// The task part of a target.
pub open spec fn target_task(s: Seq<char>) -> Seq<char> {
    if target_has_filter(s) {
        s.subrange(first_colon(s) + 1, s.len() as int)
    } else {
        s
    }
}

/// Split a target into its optional project filter and its task name at
/// the first colon.
pub fn parse_target(target: &str) -> (r: MartyResult<(Option<String>, String)>)
    ensures
        r matches Ok(pair) && (match pair.0 {
            Some(f) => target_has_filter(target@) && f@ == target_filter(target@)->0,
            None => !target_has_filter(target@),
        }) && pair.1@ == target_task(target@),
{
    let n = target.unicode_len();
    match str_find_char(target, ':') {
        Some(i) => {
            proof {
                // the found index is the first colon
                let c = first_colon(target@);
                assert(0 <= i < target@.len() && target@[i as int] == ':' && (forall|j: int|
                    0 <= j < i ==> target@[j] != ':'));
                if c != i as int {
                    if c < i as int {
                        assert(target@[c] != ':');
                    } else {
                        assert(target@[i as int] != ':');
                    }
                }
            }
            let filter = substring(target, 0, i);
            let task = substring(target, i + 1, n);
            Ok((Some(filter), task))
        },
        None => {
            let task = substring(target, 0, n);
            proof {
                assert(task@ =~= target@);
            }
            Ok((None, task))
        },
    }
}

/// The expected task bindings at view level: every workspace task under
/// its own name, then every project task under `project:task`.
pub open spec fn expected_ws_entries(tasks: Seq<TaskConfig>) -> Seq<(Seq<char>, TaskView)> {
    tasks.map_values(|t: TaskConfig| (t.name@, t@))
}

/// The bindings contributed by one project.
pub open spec fn project_entries(p: Project) -> Seq<(Seq<char>, TaskView)> {
    match p.config {
        Some(c) => match c.tasks {
            Some(ts) => ts@.map_values(|t: TaskConfig| (p.name@ + ":"@ + t.name@, t@)),
            None => Seq::empty(),
        },
        None => Seq::empty(),
    }
}

/// The bindings contributed by all projects, in order.
pub open spec fn expected_project_entries(ps: Seq<Project>) -> Seq<(Seq<char>, TaskView)>
    decreases ps.len(),
{
    if ps.len() == 0 {
        Seq::empty()
    } else {
        expected_project_entries(ps.drop_last()) + project_entries(ps.last())
    }
}

/// The views of a task map's entries.
pub open spec fn entry_views(entries: Seq<(String, TaskConfig)>) -> Seq<(Seq<char>, TaskView)> {
    entries.map_values(|e: (String, TaskConfig)| (e.0@, e.1@))
}

impl WorkspaceManager {
    /// List the tracked projects, and the inferred ones when asked.
    pub fn list_projects(&self, include_inferred: bool) -> (r: MartyResult<ProjectListResult>)
        ensures
            r matches Ok(list) && {
                let w = &self.workspace;
                &&& list.explicit_projects@.len() == w.projects@.len()
                &&& forall|i: int|
                    0 <= i < w.projects@.len() ==> {
                        let info = #[trigger] list.explicit_projects@[i];
                        &&& info.name@ == w.projects@[i].name@
                        &&& info.path@ == w.projects@[i].project_dir@
                        &&& info.has_config == (w.projects@[i].file_path is Some)
                        &&& views(info.tags@) == (match w.projects@[i].config {
                            Some(c) => match c.tags {
                                Some(t) => views(t@),
                                None => Seq::empty(),
                            },
                            None => Seq::empty(),
                        })
                    }
                &&& (!include_inferred ==> list.inferred_projects@.len() == 0)
                &&& (include_inferred ==> list.inferred_projects@.len()
                    == w.inferred_projects@.len() && (forall|i: int|
                    0 <= i < w.inferred_projects@.len() ==> {
                        let info = #[trigger] list.inferred_projects@[i];
                        &&& info.name@ == w.inferred_projects@[i].name@
                        &&& info.path@ == w.inferred_projects@[i].project_dir@
                        &&& info.discovered_by@ == w.inferred_projects@[i].discovered_by@
                        &&& info.is_tracked == crate::task_execution::some_project_named(
                            w,
                            w.inferred_projects@[i].name@,
                        )
                    }))
            },
    {
        let mut explicit: Vec<ProjectInfo> = Vec::new();
        let mut i: usize = 0;
        while i < self.workspace.projects.len()
            invariant
                i <= self.workspace.projects@.len(),
                explicit@.len() == i,
                forall|j: int|
                    0 <= j < i ==> {
                        let info = #[trigger] explicit@[j];
                        &&& info.name@ == self.workspace.projects@[j].name@
                        &&& info.path@ == self.workspace.projects@[j].project_dir@
                        &&& info.has_config == (self.workspace.projects@[j].file_path is Some)
                        &&& views(info.tags@) == (match self.workspace.projects@[j].config {
                            Some(c) => match c.tags {
                                Some(t) => views(t@),
                                None => Seq::empty(),
                            },
                            None => Seq::empty(),
                        })
                    },
            decreases self.workspace.projects@.len() - i,
        {
            let p = &self.workspace.projects[i];
            let tags: Vec<String> = match &p.config {
                Some(c) => match &c.tags {
                    Some(t) => clone_strings(t),
                    None => Vec::new(),
                },
                None => Vec::new(),
            };
            proof {
                match self.workspace.projects@[i as int].config {
                    Some(c) => {
                        match c.tags {
                            Some(t) => {
                                assert(views(tags@) == views(t@));
                            },
                            None => {
                                assert(views(tags@) =~= Seq::<Seq<char>>::empty());
                            },
                        }
                    },
                    None => {
                        assert(views(tags@) =~= Seq::<Seq<char>>::empty());
                    },
                }
            }
            let info = ProjectInfo {
                name: p.name.clone(),
                path: p.project_dir.clone(),
                tags,
                has_config: p.file_path.is_some(),
            };
            explicit.push(info);
            i = i + 1;
        }
        let mut inferred: Vec<InferredProjectInfo> = Vec::new();
        if include_inferred {
            let mut k: usize = 0;
            while k < self.workspace.inferred_projects.len()
                invariant
                    k <= self.workspace.inferred_projects@.len(),
                    inferred@.len() == k,
                    forall|j: int|
                        0 <= j < k ==> {
                            let info = #[trigger] inferred@[j];
                            &&& info.name@ == self.workspace.inferred_projects@[j].name@
                            &&& info.path@ == self.workspace.inferred_projects@[j].project_dir@
                            &&& info.discovered_by@ == self.workspace.inferred_projects@[
                                j].discovered_by@
                            &&& info.is_tracked == crate::task_execution::some_project_named(
                                &self.workspace,
                                self.workspace.inferred_projects@[j].name@,
                            )
                        },
                decreases self.workspace.inferred_projects@.len() - k,
            {
                let ip = &self.workspace.inferred_projects[k];
                let known = crate::task_execution::project_exists(
                    &self.workspace,
                    ip.name.as_str(),
                );
                let info = InferredProjectInfo {
                    name: ip.name.clone(),
                    path: ip.project_dir.clone(),
                    discovered_by: ip.discovered_by.clone(),
                    is_tracked: known,
                };
                inferred.push(info);
                k = k + 1;
            }
        }
        Ok(ProjectListResult { explicit_projects: explicit, inferred_projects: inferred })
    }

    /// The execution plan a target resolves to.
    pub fn get_execution_plan(&self, target: &str) -> (r: MartyResult<TaskExecutionPlan>)
        requires
            self.workspace.graph_ok(),
        ensures
            match r {
                Ok(plan) => plan_ok(
                    &self.workspace,
                    &self.task_configs,
                    target_task(target@),
                    target_filter(target@),
                    plan,
                ),
                Err(e) => plan_failure(
                    &self.workspace,
                    &self.task_configs,
                    target_task(target@),
                    target_filter(target@),
                    e,
                ),
            },
    {
        let (filter, task) = match parse_target(target) {
            Ok(pair) => pair,
            Err(e) => {
                return Err(e);
            },
        };
        let filter_ref: Option<&str> = match &filter {
            Some(f) => Some(f.as_str()),
            None => None,
        };
        let r = resolve_task_execution_plan(
            &self.workspace,
            &self.task_configs,
            task.as_str(),
            filter_ref,
        );
        proof {
            assert(filter_view(filter_ref) == target_filter(target@));
        }
        r
    }

    /// The dependency graph and cycles, copied for the caller.
    pub fn get_dependency_graph(&self) -> (r: MartyResult<DependencyGraphResult>)
        ensures
            r matches Ok(res) && (match (res.graph, self.workspace.dep_graph) {
                (Some(g1), Some(g2)) => g1.nodes@ == g2.nodes@ && g1.edges@.len()
                    == g2.edges@.len() && (forall|i: int|
                    0 <= i < g1.edges@.len() ==> (#[trigger] g1.edges@[i]@) == g2.edges@[i]@),
                (None, None) => true,
                _ => false,
            }) && res.cycles@.len() == self.workspace.dependency_cycles@.len() && (forall|i: int|
                0 <= i < res.cycles@.len() ==> (#[trigger] res.cycles@[i]@)
                    == self.workspace.dependency_cycles@[i]@),
    {
        let graph = match &self.workspace.dep_graph {
            Some(g) => {
                let nodes = clone_strings(&g.nodes);
                let mut edges: Vec<Vec<usize>> = Vec::new();
                let mut i: usize = 0;
                while i < g.edges.len()
                    invariant
                        i <= g.edges@.len(),
                        edges@.len() == i,
                        forall|j: int| 0 <= j < i ==> (#[trigger] edges@[j]@) == g.edges@[j]@,
                    decreases g.edges@.len() - i,
                {
                    let mut row: Vec<usize> = Vec::new();
                    let mut k: usize = 0;
                    while k < g.edges[i].len()
                        invariant
                            (i as int) < g.edges@.len(),
                            k <= g.edges@[i as int]@.len(),
                            row@.len() == k,
                            forall|j: int|
                                0 <= j < k ==> (#[trigger] row@[j]) == g.edges@[i as int]@[j],
                        decreases g.edges@[i as int]@.len() - k,
                    {
                        row.push(g.edges[i][k]);
                        k = k + 1;
                    }
                    proof {
                        assert(row@ =~= g.edges@[i as int]@);
                    }
                    edges.push(row);
                    i = i + 1;
                }
                Some(crate::graph::DepGraph { nodes, edges })
            },
            None => None,
        };
        let mut cycles: Vec<Vec<String>> = Vec::new();
        let mut c: usize = 0;
        while c < self.workspace.dependency_cycles.len()
            invariant
                c <= self.workspace.dependency_cycles@.len(),
                cycles@.len() == c,
                forall|j: int|
                    0 <= j < c ==> (#[trigger] cycles@[j]@)
                        == self.workspace.dependency_cycles@[j]@,
            decreases self.workspace.dependency_cycles@.len() - c,
        {
            cycles.push(clone_strings(&self.workspace.dependency_cycles[c]));
            c = c + 1;
        }
        Ok(DependencyGraphResult { graph, cycles })
    }

    /// Build the task map: workspace tasks first, then each project's own
    /// tasks under `project:task` keys.
    pub fn build_task_map(&self) -> (r: MartyResult<TaskMap>)
        ensures
            r matches Ok(m) && entry_views(m.entries@) == expected_ws_entries(
                self.task_configs.tasks@,
            ) + expected_project_entries(self.workspace.projects@),
    {
        let mut map = TaskMap::new();
        let mut i: usize = 0;
        proof {
            assert(entry_views(map.entries@) =~= expected_ws_entries(
                self.task_configs.tasks@.subrange(0, 0),
            ));
        }
        while i < self.task_configs.tasks.len()
            invariant
                i <= self.task_configs.tasks@.len(),
                entry_views(map.entries@) == expected_ws_entries(
                    self.task_configs.tasks@.subrange(0, i as int),
                ),
            decreases self.task_configs.tasks@.len() - i,
        {
            let t = &self.task_configs.tasks[i];
            let ghost pre = map.entries@;
            map.insert(t.name.clone(), t.clone_config());
            proof {
                assert(entry_views(map.entries@) =~= expected_ws_entries(
                    self.task_configs.tasks@.subrange(0, i + 1),
                )) by {
                    assert(self.task_configs.tasks@.subrange(0, i + 1)
                        =~= self.task_configs.tasks@.subrange(0, i as int).push(
                        self.task_configs.tasks@[i as int],
                    ));
                    assert(entry_views(map.entries@) =~= entry_views(pre).push(
                        (self.task_configs.tasks@[i as int].name@,
                        self.task_configs.tasks@[i as int]@),
                    ));
                    assert(expected_ws_entries(
                        self.task_configs.tasks@.subrange(0, i as int).push(
                            self.task_configs.tasks@[i as int],
                        ),
                    ) =~= expected_ws_entries(self.task_configs.tasks@.subrange(0, i as int)).push(
                        (self.task_configs.tasks@[i as int].name@,
                        self.task_configs.tasks@[i as int]@),
                    ));
                }
            }
            i = i + 1;
        }
        proof {
            assert(self.task_configs.tasks@.subrange(0, self.task_configs.tasks@.len() as int)
                =~= self.task_configs.tasks@);
        }
        let ghost ws_part = entry_views(map.entries@);
        let mut p: usize = 0;
        proof {
            assert(expected_project_entries(self.workspace.projects@.subrange(0, 0))
                =~= Seq::<(Seq<char>, TaskView)>::empty());
            assert(entry_views(map.entries@) =~= ws_part + expected_project_entries(
                self.workspace.projects@.subrange(0, 0),
            ));
        }
        while p < self.workspace.projects.len()
            invariant
                p <= self.workspace.projects@.len(),
                ws_part == expected_ws_entries(self.task_configs.tasks@),
                entry_views(map.entries@) == ws_part + expected_project_entries(
                    self.workspace.projects@.subrange(0, p as int),
                ),
            decreases self.workspace.projects@.len() - p,
        {
            let ghost prefix = self.workspace.projects@.subrange(0, p as int);
            let proj = &self.workspace.projects[p];
            match &proj.config {
                Some(c) => match &c.tasks {
                    Some(ts) => {
                        let mut t: usize = 0;
                        while t < ts.len()
                            invariant
                                ws_part == expected_ws_entries(self.task_configs.tasks@),
                                proj == self.workspace.projects@[p as int],
                                proj.config matches Some(cc) && cc == c,
                                c.tasks matches Some(tt) && tt == ts,
                                t <= ts@.len(),
                                entry_views(map.entries@) == ws_part
                                    + expected_project_entries(
                                    self.workspace.projects@.subrange(0, p as int),
                                ) + ts@.subrange(0, t as int).map_values(
                                    |tk: TaskConfig| (proj.name@ + ":"@ + tk.name@, tk@),
                                ),
                            decreases ts@.len() - t,
                        {
                            let tk = &ts[t];
                            let mut key = String::new();
                            key.append(proj.name.as_str());
                            key.append(":");
                            key.append(tk.name.as_str());
                            let ghost pre = map.entries@;
                            map.insert(key, tk.clone_config());
                            proof {
                                assert(key@ =~= proj.name@ + ":"@ + tk.name@);
                                assert(ts@.subrange(0, t + 1) =~= ts@.subrange(0, t as int).push(
                                    ts@[t as int],
                                ));
                                assert(entry_views(map.entries@) =~= entry_views(pre).push(
                                    (proj.name@ + ":"@ + ts@[t as int].name@, ts@[t as int]@),
                                ));
                                assert(ts@.subrange(0, t + 1).map_values(
                                    |tk2: TaskConfig| (proj.name@ + ":"@ + tk2.name@, tk2@),
                                ) =~= ts@.subrange(0, t as int).map_values(
                                    |tk2: TaskConfig| (proj.name@ + ":"@ + tk2.name@, tk2@),
                                ).push((proj.name@ + ":"@ + ts@[t as int].name@, ts@[t as int]@)));
                                assert(entry_views(map.entries@) =~= ws_part
                                    + expected_project_entries(
                                    self.workspace.projects@.subrange(0, p as int),
                                ) + ts@.subrange(0, t + 1).map_values(
                                    |tk2: TaskConfig| (proj.name@ + ":"@ + tk2.name@, tk2@),
                                ));
                            }
                            t = t + 1;
                        }
                        proof {
                            assert(ts@.subrange(0, ts@.len() as int) =~= ts@);
                        }
                    },
                    None => {},
                },
                None => {},
            }
            proof {
                let ext = self.workspace.projects@.subrange(0, p + 1);
                assert(ext.drop_last() =~= prefix);
                assert(ext.last() == self.workspace.projects@[p as int]);
                assert(entry_views(map.entries@) =~= ws_part + expected_project_entries(ext));
            }
            p = p + 1;
        }
        proof {
            assert(self.workspace.projects@.subrange(0, self.workspace.projects@.len() as int)
                =~= self.workspace.projects@);
        }
        Ok(map)
    }

    /// Plan the spawns of running a target: resolve the plan, build the
    /// task map, and run the task across the compatible projects.
    pub fn run_task(&self, target: &str) -> (r: MartyResult<Vec<SpawnCommand>>)
        requires
            self.workspace.graph_ok(),
        ensures
            match r {
                Ok(cs) => exists|plan: TaskExecutionPlan, m: TaskMap|
                    {
                        &&& #[trigger] plan_ok(
                            &self.workspace,
                            &self.task_configs,
                            target_task(target@),
                            target_filter(target@),
                            plan,
                        )
                        &&& plan.compatible_projects@.len() > 0
                        &&& entry_views(m.entries@) == expected_ws_entries(
                            self.task_configs.tasks@,
                        ) + expected_project_entries(self.workspace.projects@)
                        &&& #[trigger] runner_ok(
                            &self.workspace,
                            m.entries@,
                            target_task(target@),
                            plan.compatible_projects@,
                            cmd_views(cs@),
                        )
                    },
                Err(e) => {
                    ||| plan_failure(
                        &self.workspace,
                        &self.task_configs,
                        target_task(target@),
                        target_filter(target@),
                        e,
                    )
                    ||| (exists|plan: TaskExecutionPlan|
                        #[trigger] plan_ok(
                            &self.workspace,
                            &self.task_configs,
                            target_task(target@),
                            target_filter(target@),
                            plan,
                        ) && plan.compatible_projects@.len() == 0 && e.message_view()
                            == msg_no_compatible(target_task(target@)))
                    ||| (exists|plan: TaskExecutionPlan, m: TaskMap|
                        {
                            &&& #[trigger] plan_ok(
                                &self.workspace,
                                &self.task_configs,
                                target_task(target@),
                                target_filter(target@),
                                plan,
                            )
                            &&& entry_views(m.entries@) == expected_ws_entries(
                                self.task_configs.tasks@,
                            ) + expected_project_entries(self.workspace.projects@)
                            &&& #[trigger] runner_failure(
                                &self.workspace,
                                m.entries@,
                                target_task(target@),
                                plan.compatible_projects@,
                                e,
                            )
                        })
                },
            },
    {
        let plan = match self.get_execution_plan(target) {
            Ok(plan) => plan,
            Err(e) => {
                return Err(e);
            },
        };
        if plan.compatible_projects.len() == 0 {
            let mut m = String::new();
            m.append("No compatible projects found for task '");
            m.append(plan.task_name.as_str());
            m.append("'");
            proof {
                assert(plan.task_name@ == target_task(target@));
                assert(m@ =~= msg_no_compatible(target_task(target@)));
            }
            return Err(MartyError::Task(m));
        }
        let map = match self.build_task_map() {
            Ok(m) => m,
            Err(e) => {
                return Err(e);
            },
        };
        let runner = TaskRunner::new(&self.workspace);
        let r = runner.run_task_on_targets(
            plan.task_name.as_str(),
            &plan.compatible_projects,
            &map,
        );
        proof {
            assert(plan.task_name@ == target_task(target@));
        }
        r
    }
}

/// Error text when no project survives the tag filtering.
pub open spec fn msg_no_compatible(task: Seq<char>) -> Seq<char> {
    "No compatible projects found for task '"@ + task + "'"@
}

} // verus!
