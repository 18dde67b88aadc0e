//! Task resolution: which task runs, and on which projects.
//!
//! A target is a task name with an optional project filter.  Resolution
//! checks that the task exists, expands the filter to the full set of
//! recursive dependencies, and keeps only the projects whose tags are
//! compatible with the task file.

use vstd::prelude::*;
use crate::configs::{TaskConfig, TasksFileConfig};
use crate::protocol::Project;
use crate::text::{str_eq, views};
use crate::types::{MartyError, MartyResult};
use crate::workspace::{
    all_targets_known, get_recursive_dependencies, no_cycle_reached, recursive_deps_failure,
    recursive_deps_ok, recursive_deps_witness, target_reaches, Workspace,
};

verus! {

/// The outcome of planning a task: the task, the projects that will run
/// it (dependencies first), and the filter that was applied.
#[derive(Debug, Clone)]
pub struct TaskExecutionPlan {
    pub task_name: String,
    pub compatible_projects: Vec<String>,
    pub project_filter: Option<String>,
}

/// Some project of the workspace carries the name `x`.
pub open spec fn some_project_named(w: &Workspace, x: Seq<char>) -> bool {
    exists|p: int| 0 <= p < w.projects@.len() && (#[trigger] w.projects@[p].name@) == x
}

/// The first project carrying `x`, if any.
pub open spec fn first_project_named(ps: Seq<Project>, x: Seq<char>) -> Option<Project>
    decreases ps.len(),
{
    if ps.len() == 0 {
        None
    } else if ps[0].name@ == x {
        Some(ps[0])
    } else {
        first_project_named(ps.drop_first(), x)
    }
}

/// The tags of a task file, empty when none were declared.
pub open spec fn file_tags(cfg: &TasksFileConfig) -> Seq<String> {
    match cfg.tags {
        Some(t) => t@,
        None => Seq::empty(),
    }
}

/// The tags of a project's own settings, empty when none were declared.
pub open spec fn project_tag_seq(p: Project) -> Seq<String> {
    match p.config {
        Some(c) => match c.tags {
            Some(t) => t@,
            None => Seq::empty(),
        },
        None => Seq::empty(),
    }
}

/// Two tag lists share a tag.
pub open spec fn has_common_tag(a: Seq<String>, b: Seq<String>) -> bool {
    exists|i: int, j: int|
        0 <= i < a.len() && 0 <= j < b.len() && (#[trigger] a[i]@) == (#[trigger] b[j]@)
}

/// A project is compatible with a task file: either the file declares no
/// tags, or the project has no settings of its own, or the two share a
/// tag.  A project that declares settings without a matching tag, or no
/// tags at all, is incompatible; so is an unknown project name.
pub open spec fn compat_spec(w: &Workspace, x: Seq<char>, cfg: &TasksFileConfig) -> bool {
    if file_tags(cfg).len() == 0 {
        true
    } else {
        match first_project_named(w.projects@, x) {
            None => false,
            Some(p) => match p.config {
                None => true,
                Some(_) => {
                    let pt = project_tag_seq(p);
                    pt.len() > 0 && has_common_tag(file_tags(cfg), pt)
                },
            },
        }
    }
}

/// A task list declares a task of this name.
pub open spec fn file_has_task(tasks: Seq<TaskConfig>, name: Seq<char>) -> bool {
    exists|i: int| 0 <= i < tasks.len() && (#[trigger] tasks[i].name@) == name
}

/// The project's own settings declare a task of this name.
pub open spec fn project_has_task(p: Project, name: Seq<char>) -> bool {
    &&& p.config is Some
    &&& p.config->0.tasks is Some
    &&& file_has_task(p.config->0.tasks->0@, name)
}

/// The task exists at workspace level, in the filtered project, or (with
/// no filter) in any project, each project looked up by first name match.
pub open spec fn task_exists_spec(
    w: &Workspace,
    cfg: &TasksFileConfig,
    task: Seq<char>,
    filter: Option<Seq<char>>,
) -> bool {
    ||| file_has_task(cfg.tasks@, task)
    ||| match filter {
        Some(f) => first_project_named(w.projects@, f) matches Some(p) && project_has_task(
            p,
            task,
        ),
        None => exists|p: int|
            0 <= p < w.projects@.len() && (first_project_named(
                w.projects@,
                (#[trigger] w.projects@[p].name@),
            ) matches Some(q) && project_has_task(q, task)),
    }
}

/// The view of an optional project filter.
pub open spec fn filter_view(f: Option<&str>) -> Option<Seq<char>> {
    match f {
        Some(s) => Some(s@),
        None => None,
    }
}

/// Error text for an unknown project.
pub open spec fn msg_project_not_found(p: Seq<char>) -> Seq<char> {
    "Project '"@ + p + "' not found"@
}

/// Error text for an unknown task.
pub open spec fn msg_task_not_found(t: Seq<char>) -> Seq<char> {
    "Task '"@ + t + "' not found"@
}

/// Error text for a filter whose project fails the tag gate.
pub open spec fn msg_tag_mismatch(p: Seq<char>, t: Seq<char>) -> Seq<char> {
    "Project '"@ + p + "' is not compatible with task '"@ + t + "' (tag mismatch)"@
}

/// Error text wrapping a dependency-resolution failure.
pub open spec fn msg_failed_deps(m: Seq<char>) -> Seq<char> {
    "Failed to resolve dependencies: "@ + m
}

/// Find the first project with the given name.
fn find_project<'a>(ps: &'a Vec<Project>, name: &str) -> (r: Option<&'a Project>)
    ensures
        match r {
            Some(p) => first_project_named(ps@, name@) == Some(*p),
            None => first_project_named(ps@, name@) is None,
        },
{
    let mut i: usize = 0;
    proof {
        assert(ps@.skip(0) =~= ps@);
    }
    while i < ps.len()
        invariant
            i <= ps@.len(),
            first_project_named(ps@, name@) == first_project_named(ps@.skip(i as int), name@),
        decreases ps@.len() - i,
    {
        proof {
            assert(ps@.skip(i as int)[0] == ps@[i as int]);
            assert(ps@.skip(i as int).drop_first() =~= ps@.skip(i + 1));
        }
        if str_eq(ps[i].name.as_str(), name) {
            return Some(&ps[i]);
        }
        i = i + 1;
    }
    None
}

/// Whether a task list declares a task of this name.
fn tasks_declare(tasks: &Vec<TaskConfig>, name: &str) -> (r: bool)
    ensures
        r == file_has_task(tasks@, name@),
{
    let mut i: usize = 0;
    while i < tasks.len()
        invariant
            i <= tasks@.len(),
            forall|j: int| 0 <= j < i ==> (#[trigger] tasks@[j].name@) != name@,
        decreases tasks@.len() - i,
    {
        if str_eq(tasks[i].name.as_str(), name) {
            proof {
                assert(tasks@[i as int].name@ == name@);
            }
            return true;
        }
        i = i + 1;
    }
    false
}

/// Whether two tag lists share a tag.
fn tags_intersect(a: &Vec<String>, b: &Vec<String>) -> (r: bool)
    ensures
        r == has_common_tag(a@, b@),
{
    let mut i: usize = 0;
    while i < a.len()
        invariant
            i <= a@.len(),
            forall|i2: int, j: int|
                0 <= i2 < i && 0 <= j < b@.len() ==> (#[trigger] a@[i2]@) != (#[trigger] b@[j]@),
        decreases a@.len() - i,
    {
        let mut j: usize = 0;
        while j < b.len()
            invariant
                (i as int) < a@.len(),
                j <= b@.len(),
                forall|i2: int, j2: int|
                    0 <= i2 < i && 0 <= j2 < b@.len() ==> (#[trigger] a@[i2]@) != (
                    #[trigger] b@[j2]@),
                forall|j2: int| 0 <= j2 < j ==> (#[trigger] b@[j2]@) != a@[i as int]@,
            decreases b@.len() - j,
        {
            if str_eq(a[i].as_str(), b[j].as_str()) {
                proof {
                    assert(a@[i as int]@ == b@[j as int]@);
                }
                return true;
            }
            j = j + 1;
        }
        i = i + 1;
    }
    false
}

/// Whether a project is compatible with the task file's tag gate.
///
/// Always succeeds; the result is the tag-compatibility verdict.
pub fn is_project_compatible_with_task(
    workspace: &Workspace,
    project_name: &str,
    tasks_file_config: &TasksFileConfig,
) -> (r: MartyResult<bool>)
    ensures
        r matches Ok(b) && b == compat_spec(workspace, project_name@, tasks_file_config),
{
    let empty_tags: Vec<String> = Vec::new();
    let ftags: &Vec<String> = match &tasks_file_config.tags {
        Some(t) => t,
        None => &empty_tags,
    };
    if ftags.len() == 0 {
        return Ok(true);
    }
    let project = match find_project(&workspace.projects, project_name) {
        Some(p) => p,
        None => {
            return Ok(false);
        },
    };
    match &project.config {
        None => Ok(true),
        Some(c) => {
            let ptags: &Vec<String> = match &c.tags {
                Some(t) => t,
                None => &empty_tags,
            };
            if ptags.len() == 0 {
                return Ok(false);
            }
            let common = tags_intersect(ftags, ptags);
            proof {
                assert(ftags@ == file_tags(tasks_file_config));
                assert(ptags@ == project_tag_seq(*project));
            }
            Ok(common)
        },
    }
}

/// Whether the filtered project (looked up by first name match) declares
/// the task.  Fails when no project carries the name.
pub fn check_task_in_project(workspace: &Workspace, project_name: &str, task_name: &str) -> (r:
    MartyResult<bool>)
    ensures
        match r {
            Ok(b) => some_project_named(workspace, project_name@) && b == (first_project_named(
                workspace.projects@,
                project_name@,
            ) matches Some(p) && project_has_task(p, task_name@)),
            Err(e) => !some_project_named(workspace, project_name@) && e.message_view()
                == msg_project_not_found(project_name@),
        },
{
    let project = match find_project(&workspace.projects, project_name) {
        Some(p) => p,
        None => {
            let mut m = String::new();
            m.append("Project '");
            m.append(project_name);
            m.append("' not found");
            proof {
                assert(m@ =~= msg_project_not_found(project_name@));
                assert forall|p: int| 0 <= p < workspace.projects@.len() implies (
                #[trigger] workspace.projects@[p].name@) != project_name@ by {
                    if workspace.projects@[p].name@ == project_name@ {
                        lemma_first_project_some(workspace.projects@, project_name@, p);
                    }
                }
            }
            return Err(MartyError::Task(m));
        },
    };
    proof {
        lemma_first_project_member(workspace.projects@, project_name@);
    }
    match &project.config {
        None => Ok(false),
        Some(c) => match &c.tasks {
            None => Ok(false),
            Some(ts) => {
                let has = tasks_declare(ts, task_name);
                Ok(has)
            },
        },
    }
}

/// A name with a project bearing it has a first bearer.
proof fn lemma_first_project_some(ps: Seq<Project>, x: Seq<char>, p: int)
    requires
        0 <= p < ps.len(),
        ps[p].name@ == x,
    ensures
        first_project_named(ps, x) is Some,
    decreases ps.len(),
{
    if ps[0].name@ != x {
        lemma_first_project_some(ps.drop_first(), x, p - 1);
    }
}

/// A first bearer is a member of the list.
proof fn lemma_first_project_member(ps: Seq<Project>, x: Seq<char>)
    requires
        first_project_named(ps, x) is Some,
    ensures
        exists|p: int|
            0 <= p < ps.len() && (#[trigger] ps[p].name@) == x && first_project_named(ps, x)
                == Some(ps[p]),
    decreases ps.len(),
{
    if ps.len() > 0 {
        if ps[0].name@ == x {
            assert(ps[0].name@ == x && first_project_named(ps, x) == Some(ps[0]));
        } else {
            lemma_first_project_member(ps.drop_first(), x);
            let p = choose|p: int|
                0 <= p < ps.drop_first().len() && (#[trigger] ps.drop_first()[p].name@) == x
                    && first_project_named(ps.drop_first(), x) == Some(ps.drop_first()[p]);
            assert(ps[p + 1].name@ == x && first_project_named(ps, x) == Some(ps[p + 1]));
        }
    }
}

/// Whether the task exists at workspace level or in the searched projects.
///
/// With a filter, only that project is searched, and an unknown filter
/// project is an error unless the workspace itself declares the task.
pub fn task_exists(
    workspace: &Workspace,
    config: &TasksFileConfig,
    task_name: &str,
    project_filter: Option<&str>,
) -> (r: MartyResult<bool>)
    ensures
        match r {
            Ok(b) => b == task_exists_spec(workspace, config, task_name@, filter_view(
                project_filter,
            )) && (match project_filter {
                Some(f) => !file_has_task(config.tasks@, task_name@) ==> some_project_named(
                    workspace,
                    f@,
                ),
                None => true,
            }),
            Err(e) => project_filter matches Some(f) && !file_has_task(config.tasks@, task_name@)
                && !some_project_named(workspace, f@) && e.message_view()
                == msg_project_not_found(f@),
        },
{
    if tasks_declare(&config.tasks, task_name) {
        return Ok(true);
    }
    match project_filter {
        Some(f) => check_task_in_project(workspace, f, task_name),
        None => {
            let mut p: usize = 0;
            while p < workspace.projects.len()
                invariant
                    project_filter is None,
                    p <= workspace.projects@.len(),
                    !file_has_task(config.tasks@, task_name@),
                    forall|q: int|
                        0 <= q < p ==> !(first_project_named(
                            workspace.projects@,
                            (#[trigger] workspace.projects@[q].name@),
                        ) matches Some(pr) && project_has_task(pr, task_name@)),
                decreases workspace.projects@.len() - p,
            {
                let name = workspace.projects[p].name.clone();
                proof {
                    lemma_first_project_some(workspace.projects@, name@, p as int);
                }
                match check_task_in_project(workspace, name.as_str(), task_name) {
                    Ok(true) => {
                        proof {
                            assert(workspace.projects@[p as int].name@ == name@);
                            assert(first_project_named(workspace.projects@, #[trigger] workspace
                                .projects@[p as int].name@) matches Some(q) && project_has_task(
                                q,
                                task_name@,
                            ));
                            assert(task_exists_spec(workspace, config, task_name@, filter_view(
                                project_filter,
                            )));
                        }
                        return Ok(true);
                    },
                    Ok(false) => {},
                    Err(_) => {
                        proof {
                            assert(false);
                        }
                    },
                }
                p = p + 1;
            }
            Ok(false)
        },
    }
}


/// The names of the workspace's projects, in order.
pub open spec fn project_names(w: &Workspace) -> Seq<String> {
    w.projects@.map_values(|p: Project| p.name)
}

/// The order-preserving selection of the tag-compatible names.
pub open spec fn compat_filtered(w: &Workspace, cfg: &TasksFileConfig, names: Seq<String>) -> Seq<
    String,
>
    decreases names.len(),
{
    if names.len() == 0 {
        Seq::empty()
    } else if compat_spec(w, names.last()@, cfg) {
        compat_filtered(w, cfg, names.drop_last()).push(names.last())
    } else {
        compat_filtered(w, cfg, names.drop_last())
    }
}

/// A compatible member of the list survives the filtering.
proof fn lemma_compat_filtered_keeps(
    w: &Workspace,
    cfg: &TasksFileConfig,
    names: Seq<String>,
    i: int,
)
    requires
        0 <= i < names.len(),
        compat_spec(w, names[i]@, cfg),
    ensures
        views(compat_filtered(w, cfg, names)).contains(names[i]@),
    decreases names.len(),
{
    let rest = compat_filtered(w, cfg, names.drop_last());
    if i == names.len() - 1 {
        let whole = compat_filtered(w, cfg, names);
        assert(views(whole)[views(whole).len() - 1] == names[i]@);
    } else {
        assert(names.drop_last()[i] == names[i]);
        lemma_compat_filtered_keeps(w, cfg, names.drop_last(), i);
        let j = choose|j: int|
            0 <= j < views(rest).len() && #[trigger] views(rest)[j] == names[i]@;
        if compat_spec(w, names.last()@, cfg) {
            assert(views(compat_filtered(w, cfg, names))[j] == names[i]@);
        }
    }
}

/// Every survivor of the filtering is tag-compatible.
proof fn lemma_compat_filtered_sound(
    w: &Workspace,
    cfg: &TasksFileConfig,
    names: Seq<String>,
    j: int,
)
    requires
        0 <= j < compat_filtered(w, cfg, names).len(),
    ensures
        compat_spec(w, compat_filtered(w, cfg, names)[j]@, cfg),
    decreases names.len(),
{
    if names.len() > 0 {
        let rest = compat_filtered(w, cfg, names.drop_last());
        if compat_spec(w, names.last()@, cfg) && j == rest.len() {
        } else {
            lemma_compat_filtered_sound(w, cfg, names.drop_last(), j);
        }
    }
}

/// What a successful task plan promises: the task exists, the plan keeps
/// the task and filter, its projects are exactly the tag-compatible part
/// of the recursive dependency closure of the initial targets, and a
/// filtered project is itself in the plan.
pub open spec fn plan_ok(
    w: &Workspace,
    cfg: &TasksFileConfig,
    task: Seq<char>,
    filter: Option<Seq<char>>,
    plan: TaskExecutionPlan,
) -> bool {
    &&& plan.task_name@ == task
    &&& match (plan.project_filter, filter) {
        (Some(s), Some(f)) => s@ == f,
        (None, None) => true,
        _ => false,
    }
    &&& task_exists_spec(w, cfg, task, filter)
    &&& exists|ts: Seq<String>, full: Seq<String>|
        {
            &&& #[trigger] views(ts) == initial_target_views(w, filter)
            &&& recursive_deps_ok(w, ts, full)
            &&& plan.compatible_projects@ == #[trigger] compat_filtered(w, cfg, full)
        }
    &&& match filter {
        Some(f) => compat_spec(w, f, cfg) && views(plan.compatible_projects@).contains(f),
        None => true,
    }
}

/// The views of the initial target set: the filtered name, or all
/// project names.
pub open spec fn initial_target_views(w: &Workspace, filter: Option<Seq<char>>) -> Seq<Seq<char>> {
    match filter {
        Some(f) => seq![f],
        None => views(project_names(w)),
    }
}

/// Why planning a task fails, with the exact message of each case.
pub open spec fn plan_failure(
    w: &Workspace,
    cfg: &TasksFileConfig,
    task: Seq<char>,
    filter: Option<Seq<char>>,
    e: MartyError,
) -> bool {
    ||| (filter matches Some(f) && !some_project_named(w, f) && e.message_view()
        == msg_project_not_found(f))
    ||| (!task_exists_spec(w, cfg, task, filter) && (match filter {
        Some(f) => some_project_named(w, f),
        None => true,
    }) && e.message_view() == msg_task_not_found(task))
    ||| (task_exists_spec(w, cfg, task, filter) && (match filter {
        Some(f) => some_project_named(w, f),
        None => true,
    }) && (exists|ts: Seq<String>, m: Seq<char>|
        {
            &&& #[trigger] views(ts) == initial_target_views(w, filter)
            &&& recursive_deps_failure(w, ts, m)
            &&& e.message_view() == #[trigger] msg_failed_deps(m)
        }))
    ||| (task_exists_spec(w, cfg, task, filter) && (filter matches Some(f) && some_project_named(
        w,
        f,
    ) && !compat_spec(w, f, cfg) && e.message_view() == msg_tag_mismatch(f, task)))
}

/// Keep the tag-compatible projects of a name list, in order.
fn filter_compatible(w: &Workspace, cfg: &TasksFileConfig, names: &Vec<String>) -> (r: Vec<String>)
    ensures
        r@ == compat_filtered(w, cfg, names@),
{
    let mut out: Vec<String> = Vec::new();
    let mut i: usize = 0;
    while i < names.len()
        invariant
            i <= names@.len(),
            out@ == compat_filtered(w, cfg, names@.subrange(0, i as int)),
        decreases names@.len() - i,
    {
        let ghost prefix = names@.subrange(0, i as int);
        let keep = match is_project_compatible_with_task(w, names[i].as_str(), cfg) {
            Ok(b) => b,
            Err(_) => false,
        };
        if keep {
            out.push(names[i].clone());
        }
        proof {
            let ext = names@.subrange(0, i + 1);
            assert(ext.drop_last() =~= prefix);
            assert(ext.last() == names@[i as int]);
        }
        i = i + 1;
    }
    proof {
        assert(names@.subrange(0, names@.len() as int) =~= names@);
    }
    out
}

/// Whether some name in the list has the given view.
fn names_contain(names: &Vec<String>, x: &str) -> (r: bool)
    ensures
        r == views(names@).contains(x@),
{
    let mut i: usize = 0;
    while i < names.len()
        invariant
            i <= names@.len(),
            forall|j: int| 0 <= j < i ==> (#[trigger] names@[j]@) != x@,
        decreases names@.len() - i,
    {
        if str_eq(names[i].as_str(), x) {
            proof {
                assert(views(names@)[i as int] == x@);
            }
            return true;
        }
        i = i + 1;
    }
    proof {
        if views(names@).contains(x@) {
            let j = choose|j: int| 0 <= j < views(names@).len() && #[trigger] views(names@)[j] == x@;
            assert(names@[j]@ == x@);
        }
    }
    false
}

/// Plan which projects run a task: verify the task, expand the filter to
/// the recursive dependency closure, and keep the tag-compatible part.
pub fn resolve_task_execution_plan(
    workspace: &Workspace,
    config: &TasksFileConfig,
    task_name: &str,
    project_filter: Option<&str>,
) -> (r: MartyResult<TaskExecutionPlan>)
    requires
        workspace.graph_ok(),
    ensures
        match r {
            Ok(plan) => plan_ok(
                workspace,
                config,
                task_name@,
                filter_view(project_filter),
                plan,
            ),
            Err(e) => plan_failure(
                workspace,
                config,
                task_name@,
                filter_view(project_filter),
                e,
            ),
        },
{
    match task_exists(workspace, config, task_name, project_filter) {
        Err(e) => {
            proof {
                assert(plan_failure(workspace, config, task_name@, filter_view(project_filter), e));
            }
            return Err(e);
        },
        Ok(false) => {
            let mut m = String::new();
            m.append("Task '");
            m.append(task_name);
            m.append("' not found");
            proof {
                assert(m@ =~= msg_task_not_found(task_name@));
                assert(plan_failure(
                    workspace,
                    config,
                    task_name@,
                    filter_view(project_filter),
                    MartyError::Task(m),
                ));
            }
            return Err(MartyError::Task(m));
        },
        Ok(true) => {},
    }
    let initial_targets: Vec<String> = match project_filter {
        Some(f) => {
            if !project_exists(workspace, f) {
                let mut m = String::new();
                m.append("Project '");
                m.append(f);
                m.append("' not found");
                proof {
                    assert(m@ =~= msg_project_not_found(f@));
                    assert(plan_failure(
                        workspace,
                        config,
                        task_name@,
                        filter_view(project_filter),
                        MartyError::Task(m),
                    ));
                }
                return Err(MartyError::Task(m));
            }
            let mut v: Vec<String> = Vec::new();
            v.push(f.to_owned());
            proof {
                assert(views(v@) =~= initial_target_views(workspace, filter_view(project_filter)));
            }
            v
        },
        None => {
            let mut v: Vec<String> = Vec::new();
            let mut i: usize = 0;
            while i < workspace.projects.len()
                invariant
                    i <= workspace.projects@.len(),
                    v@.len() == i,
                    forall|j: int| 0 <= j < i ==> v@[j] == workspace.projects@[j].name,
                decreases workspace.projects@.len() - i,
            {
                v.push(workspace.projects[i].name.clone());
                i = i + 1;
            }
            proof {
                assert(v@ =~= project_names(workspace));
                assert(views(v@) =~= initial_target_views(workspace, filter_view(project_filter)));
            }
            v
        },
    };
    let full = match get_recursive_dependencies(workspace, &initial_targets) {
        Ok(full) => full,
        Err(m) => {
            let mut wrapped = String::new();
            wrapped.append("Failed to resolve dependencies: ");
            wrapped.append(m.as_str());
            proof {
                assert(wrapped@ =~= msg_failed_deps(m@));
                assert(views(initial_targets@) == initial_target_views(
                    workspace,
                    filter_view(project_filter),
                ));
                assert(plan_failure(
                    workspace,
                    config,
                    task_name@,
                    filter_view(project_filter),
                    MartyError::Task(wrapped),
                ));
            }
            return Err(MartyError::Task(wrapped));
        },
    };
    let compatible = filter_compatible(workspace, config, &full);
    match project_filter {
        Some(f) => {
            if !names_contain(&compatible, f) {
                proof {
                    // the filtered project is in the dependency closure,
                    // so only incompatibility can keep it out of the plan
                    if compat_spec(workspace, f@, config) {
                        let (ord) = choose|ord: Seq<int>|
                            recursive_deps_witness(
                                &(workspace.dep_graph->Some_0),
                                initial_targets@,
                                ord,
                                full@,
                            );
                        let g = workspace.dep_graph->Some_0;
                        let s = choose|s: int|
                            0 <= s < g.n() && (#[trigger] g.name_of(s)) == initial_targets@[0]@;
                        assert(target_reaches(&g, initial_targets@, s)) by {
                            crate::graph::lemma_reaches_refl(&g, s);
                            assert(g.reaches_in(s, s, 0nat));
                        }
                        let x = choose|x: int| 0 <= x < ord.len() && (#[trigger] ord[x]) == s;
                        assert(full@[x]@ == f@);
                        lemma_compat_filtered_keeps(workspace, config, full@, x);
                        assert(false);
                    }
                }
                let mut m = String::new();
                m.append("Project '");
                m.append(f);
                m.append("' is not compatible with task '");
                m.append(task_name);
                m.append("' (tag mismatch)");
                proof {
                    assert(m@ =~= msg_tag_mismatch(f@, task_name@));
                    assert(plan_failure(
                        workspace,
                        config,
                        task_name@,
                        filter_view(project_filter),
                        MartyError::Task(m),
                    ));
                }
                return Err(MartyError::Task(m));
            }
        },
        None => {},
    }
    let plan = TaskExecutionPlan {
        task_name: task_name.to_owned(),
        compatible_projects: compatible,
        project_filter: match project_filter {
            Some(f) => Some(f.to_owned()),
            None => None,
        },
    };
    proof {
        assert(plan_ok(workspace, config, task_name@, filter_view(project_filter), plan)) by {
            assert(views(initial_targets@) == initial_target_views(
                workspace,
                filter_view(project_filter),
            ));
            assert(recursive_deps_ok(workspace, initial_targets@, full@));
            assert(plan.compatible_projects@ == compat_filtered(workspace, config, full@));
            match project_filter {
                Some(f) => {
                    assert(views(plan.compatible_projects@).contains(f@));
                    let j = choose|j: int|
                        0 <= j < views(plan.compatible_projects@).len() && #[trigger] views(
                            plan.compatible_projects@,
                        )[j] == f@;
                    lemma_compat_filtered_sound(workspace, config, full@, j);
                    assert(compat_spec(workspace, f@, config));
                },
                None => {},
            }
        }
    }
    Ok(plan)
}

/// Whether some project of the workspace carries the name.
pub fn project_exists(w: &Workspace, name: &str) -> (r: bool)
    ensures
        r == some_project_named(w, name@),
{
    let mut i: usize = 0;
    while i < w.projects.len()
        invariant
            i <= w.projects@.len(),
            forall|j: int| 0 <= j < i ==> (#[trigger] w.projects@[j].name@) != name@,
        decreases w.projects@.len() - i,
    {
        if str_eq(w.projects[i].name.as_str(), name) {
            proof {
                assert(w.projects@[i as int].name@ == name@);
            }
            return true;
        }
        i = i + 1;
    }
    false
}


} // verus!
