//! The task execution engine, as a planner.
//!
//! Running a task resolves the effective task per project (project
//! override before workspace task), runs task-level dependencies first,
//! and dispatches each task to a script, a shell command, or a program
//! with arguments.  The engine here computes the exact ordered list of
//! spawns; performing them is the caller's job.

use vstd::prelude::*;
use crate::configs::{Command, TaskConfig};
use crate::text::{dec_rep, str_eq, str_has_suffix, usize_to_string, views};
use crate::types::{MartyError, MartyResult};
use crate::workspace::{
    get_recursive_dependencies, group_by_dependency_levels, level_grouping_ok,
    level_grouping_failure, recursive_deps_failure, recursive_deps_ok, Workspace,
};

verus! {

/// A map from task keys to task definitions; later insertions win.
#[derive(Debug)]
pub struct TaskMap {
    pub entries: Vec<(String, TaskConfig)>,
}

/// The binding a key resolves to: the last entry with that key.
pub open spec fn map_get_spec(entries: Seq<(String, TaskConfig)>, key: Seq<char>) -> Option<
    TaskConfig,
>
    decreases entries.len(),
{
    if entries.len() == 0 {
        None
    } else if entries.last().0@ == key {
        Some(entries.last().1)
    } else {
        map_get_spec(entries.drop_last(), key)
    }
}

impl TaskMap {
    /// An empty task map.
    pub fn new() -> (r: TaskMap)
        ensures
            r.entries@.len() == 0,
    {
        TaskMap { entries: Vec::new() }
    }

    /// Bind `key` to `task`, shadowing earlier bindings.
    pub fn insert(&mut self, key: String, task: TaskConfig)
        ensures
            final(self).entries@ == old(self).entries@.push((key, task)),
    {
        self.entries.push((key, task));
    }

    /// Look up the current binding of `key`.
    pub fn get(&self, key: &str) -> (r: Option<&TaskConfig>)
        ensures
            match r {
                Some(t) => map_get_spec(self.entries@, key@) == Some(*t),
                None => map_get_spec(self.entries@, key@) is None,
            },
    {
        let mut i: usize = self.entries.len();
        proof {
            assert(self.entries@.subrange(0, self.entries@.len() as int) =~= self.entries@);
        }
        while i > 0
            invariant
                i <= self.entries@.len(),
                map_get_spec(self.entries@, key@) == map_get_spec(
                    self.entries@.subrange(0, i as int),
                    key@,
                ),
            decreases i,
        {
            i = i - 1;
            proof {
                assert(self.entries@.subrange(0, i + 1).last() == self.entries@[i as int]);
                assert(self.entries@.subrange(0, i + 1).drop_last() =~= self.entries@.subrange(
                    0,
                    i as int,
                ));
            }
            if str_eq(self.entries[i].0.as_str(), key) {
                return Some(&self.entries[i].1);
            }
        }
        proof {
            assert(self.entries@.subrange(0, 0).len() == 0);
        }
        None
    }

    /// Whether any binding's key ends with the given suffix.
    pub fn any_key_has_suffix(&self, suffix: &str) -> (r: bool)
        ensures
            r == exists|i: int|
                0 <= i < self.entries@.len() && suffix@.is_suffix_of(
                    #[trigger] self.entries@[i].0@,
                ),
    {
        let mut i: usize = 0;
        while i < self.entries.len()
            invariant
                i <= self.entries@.len(),
                forall|j: int|
                    0 <= j < i ==> !suffix@.is_suffix_of(#[trigger] self.entries@[j].0@),
            decreases self.entries@.len() - i,
        {
            if str_has_suffix(self.entries[i].0.as_str(), suffix) {
                proof {
                    assert(suffix@.is_suffix_of(self.entries@[i as int].0@));
                }
                return true;
            }
            i = i + 1;
        }
        false
    }
}

/// One spawn the caller must perform: what to run, and the targets whose
/// environment variables accompany it.
#[derive(Debug, Clone)]
pub struct SpawnCommand {
    pub kind: CommandKind,
    pub targets: Vec<String>,
}

/// What a spawn runs.
#[derive(Debug, Clone)]
pub enum CommandKind {
    /// An executable file, resolved against the workspace root by the
    /// caller when relative.
    Script { path: String },
    /// One shell command line, run through the shell.
    Shell { command: String },
    /// A program with its arguments.
    Program { program: String, args: Vec<String> },
}

/// The view of a spawn kind, over character sequences.
pub enum KindView {
    Script(Seq<char>),
    Shell(Seq<char>),
    Program(Seq<char>, Seq<Seq<char>>),
}

/// The view of a spawn.
pub struct CmdView {
    pub kind: KindView,
    pub targets: Seq<Seq<char>>,
}

impl View for SpawnCommand {
    type V = CmdView;

    open spec fn view(&self) -> CmdView {
        CmdView {
            kind: match self.kind {
                CommandKind::Script { path } => KindView::Script(path@),
                CommandKind::Shell { command } => KindView::Shell(command@),
                CommandKind::Program { program, args } => KindView::Program(
                    program@,
                    views(args@),
                ),
            },
            targets: views(self.targets@),
        }
    }
}

/// The views of a list of spawns.
pub open spec fn cmd_views(cs: Seq<SpawnCommand>) -> Seq<CmdView> {
    cs.map_values(|c: SpawnCommand| c@)
}

/// Error text for an unknown task-level dependency.
pub open spec fn msg_dep_not_found(dep: Seq<char>, task: Seq<char>) -> Seq<char> {
    "Dependency '"@ + dep + "' not found for task '"@ + task + "'"@
}

/// Error text for a task that defines nothing to run.
pub open spec fn msg_no_action(task: Seq<char>) -> Seq<char> {
    "Task '"@ + task + "' has no script or command to execute"@
}

/// Error text for a task that defines both a script and a command;
/// exactly one of the two must be set.
pub open spec fn msg_both_actions(task: Seq<char>) -> Seq<char> {
    "Task '"@ + task + "' defines both a script and a command"@
}

/// Error text for task dependencies that never bottom out.
pub open spec fn msg_task_dep_cycle(task: Seq<char>) -> Seq<char> {
    "Task '"@ + task + "' has circular task dependencies"@
}

/// Error text for a task missing on a given project.
pub open spec fn msg_task_missing_for(task: Seq<char>, project: Seq<char>) -> Seq<char> {
    "Task '"@ + task + "' not found for project '"@ + project + "'"@
}

/// The spawns of one task: its dependencies' spawns first, then its own.
///
/// `depth` bounds the dependency chain; a chain longer than the number of
/// bindings can only be circular and is an error.
pub open spec fn plan_task_spec(
    m: Seq<(String, TaskConfig)>,
    cfg: TaskConfig,
    targets: Seq<Seq<char>>,
    depth: nat,
) -> Result<Seq<CmdView>, Seq<char>>
    decreases depth, 0int, 0int,
{
    if depth == 0 {
        Err(msg_task_dep_cycle(cfg.name@))
    } else {
        let pre = match cfg.dependencies {
            Some(ds) => plan_deps_spec(m, cfg.name@, ds@, targets, (depth - 1) as nat),
            None => Ok(Seq::empty()),
        };
        match pre {
            Err(e) => Err(e),
            Ok(before) => {
                let eff = match cfg.override_targets {
                    Some(t) => views(t@),
                    None => targets,
                };
                if cfg.script is Some && cfg.command is Some {
                    Err(msg_both_actions(cfg.name@))
                } else {
                    match cfg.script {
                        Some(s) => Ok(
                            before.push(CmdView { kind: KindView::Script(s@), targets: eff }),
                        ),
                        None => match cfg.command {
                            Some(Command::Single(c)) => Ok(
                                before.push(CmdView { kind: KindView::Shell(c@), targets: eff }),
                            ),
                            Some(Command::Multiple(v)) => if v@.len() == 0 {
                                Ok(before)
                            } else {
                                Ok(
                                    before.push(
                                        CmdView {
                                            kind: KindView::Program(
                                                v@[0]@,
                                                views(v@).drop_first(),
                                            ),
                                            targets: eff,
                                        },
                                    ),
                                )
                            },
                            None => Err(msg_no_action(cfg.name@)),
                        },
                    }
                }
            },
        }
    }
}

/// The spawns of a dependency list, in declaration order.
pub open spec fn plan_deps_spec(
    m: Seq<(String, TaskConfig)>,
    parent: Seq<char>,
    deps: Seq<String>,
    targets: Seq<Seq<char>>,
    depth: nat,
) -> Result<Seq<CmdView>, Seq<char>>
    decreases depth, 1int, deps.len(),
{
    if deps.len() == 0 {
        Ok(Seq::empty())
    } else {
        match map_get_spec(m, deps[0]@) {
            None => Err(msg_dep_not_found(deps[0]@, parent)),
            Some(d) => match plan_task_spec(m, d, targets, depth) {
                Err(e) => Err(e),
                Ok(cs) => match plan_deps_spec(m, parent, deps.drop_first(), targets, depth) {
                    Err(e) => Err(e),
                    Ok(rest) => Ok(cs + rest),
                },
            },
        }
    }
}

/// Build one error string from a spec message made of two literals
/// around one name.
fn wrap_name_msg(prefix: &str, name: &str, suffix: &str) -> (r: String)
    ensures
        r@ == prefix@ + name@ + suffix@,
{
    let mut m = String::new();
    m.append(prefix);
    m.append(name);
    m.append(suffix);
    proof {
        assert(m@ =~= prefix@ + name@ + suffix@);
    }
    m
}

/// Compute the spawns of one task, dependencies first.
pub fn plan_task(
    map: &TaskMap,
    cfg: &TaskConfig,
    targets: &Vec<String>,
    depth: usize,
) -> (r: MartyResult<Vec<SpawnCommand>>)
    ensures
        match r {
            Ok(cs) => plan_task_spec(map.entries@, *cfg, views(targets@), depth as nat) == Ok::<
                Seq<CmdView>,
                Seq<char>,
            >(cmd_views(cs@)),
            Err(e) => plan_task_spec(map.entries@, *cfg, views(targets@), depth as nat)
                == Err::<Seq<CmdView>, Seq<char>>(e.message_view()),
        },
    decreases depth, 0int, 0int,
{
    if depth == 0 {
        let m = wrap_name_msg("Task '", cfg.name.as_str(), "' has circular task dependencies");
        return Err(MartyError::Task(m));
    }
    let mut out: Vec<SpawnCommand> = Vec::new();
    match &cfg.dependencies {
        Some(ds) => {
            match plan_deps(map, cfg.name.as_str(), ds, 0, targets, depth - 1) {
                Ok(cs) => {
                    out = cs;
                    proof {
                        assert(ds@.skip(0) =~= ds@);
                    }
                },
                Err(e) => {
                    proof {
                        assert(ds@.skip(0) =~= ds@);
                    }
                    return Err(e);
                },
            }
        },
        None => {
            proof {
                assert(cmd_views(out@) =~= Seq::<CmdView>::empty());
            }
        },
    }
    let ghost before = cmd_views(out@);
    if cfg.script.is_some() && cfg.command.is_some() {
        let m = wrap_name_msg("Task '", cfg.name.as_str(), "' defines both a script and a command");
        proof {
            assert(m@ =~= msg_both_actions(cfg.name@));
        }
        return Err(MartyError::Task(m));
    }
    let eff_targets: &Vec<String> = match &cfg.override_targets {
        Some(t) => t,
        None => targets,
    };
    match &cfg.script {
        Some(s) => {
            out.push(
                SpawnCommand {
                    kind: CommandKind::Script { path: s.clone() },
                    targets: crate::text::clone_strings(eff_targets),
                },
            );
            proof {
                assert(cmd_views(out@) =~= before.push(out@.last()@));
                assert(plan_task_spec(map.entries@, *cfg, views(targets@), depth as nat)
                    == Ok::<Seq<CmdView>, Seq<char>>(cmd_views(out@)));
            }
            Ok(out)
        },
        None => match &cfg.command {
            Some(Command::Single(c)) => {
                out.push(
                    SpawnCommand {
                        kind: CommandKind::Shell { command: c.clone() },
                        targets: crate::text::clone_strings(eff_targets),
                    },
                );
                proof {
                    assert(cmd_views(out@) =~= before.push(out@.last()@));
                    assert(plan_task_spec(map.entries@, *cfg, views(targets@), depth as nat)
                        == Ok::<Seq<CmdView>, Seq<char>>(cmd_views(out@)));
                }
                Ok(out)
            },
            Some(Command::Multiple(v)) => {
                if v.len() == 0 {
                    proof {
                        assert(plan_task_spec(map.entries@, *cfg, views(targets@), depth as nat)
                            == Ok::<Seq<CmdView>, Seq<char>>(cmd_views(out@)));
                    }
                    return Ok(out);
                }
                let mut args: Vec<String> = Vec::new();
                let mut k: usize = 1;
                while k < v.len()
                    invariant
                        1 <= k <= v@.len(),
                        args@.len() == k - 1,
                        forall|j: int| 0 <= j < k - 1 ==> args@[j] == v@[j + 1],
                    decreases v@.len() - k,
                {
                    args.push(v[k].clone());
                    k = k + 1;
                }
                proof {
                    assert(views(args@) =~= views(v@).drop_first());
                }
                out.push(
                    SpawnCommand {
                        kind: CommandKind::Program { program: v[0].clone(), args },
                        targets: crate::text::clone_strings(eff_targets),
                    },
                );
                proof {
                    assert(cmd_views(out@) =~= before.push(out@.last()@));
                    assert(plan_task_spec(map.entries@, *cfg, views(targets@), depth as nat)
                        == Ok::<Seq<CmdView>, Seq<char>>(cmd_views(out@)));
                }
                Ok(out)
            },
            None => {
                let m = wrap_name_msg(
                    "Task '",
                    cfg.name.as_str(),
                    "' has no script or command to execute",
                );
                Err(MartyError::Task(m))
            },
        },
    }
}

/// Compute the spawns of the dependency suffix starting at `from`.
fn plan_deps(
    map: &TaskMap,
    parent: &str,
    deps: &Vec<String>,
    from: usize,
    targets: &Vec<String>,
    depth: usize,
) -> (r: MartyResult<Vec<SpawnCommand>>)
    requires
        from <= deps@.len(),
    ensures
        match r {
            Ok(cs) => plan_deps_spec(
                map.entries@,
                parent@,
                deps@.skip(from as int),
                views(targets@),
                depth as nat,
            ) == Ok::<Seq<CmdView>, Seq<char>>(cmd_views(cs@)),
            Err(e) => plan_deps_spec(
                map.entries@,
                parent@,
                deps@.skip(from as int),
                views(targets@),
                depth as nat,
            ) == Err::<Seq<CmdView>, Seq<char>>(e.message_view()),
        },
    decreases depth, 1int, deps@.len() - from,
{
    if from >= deps.len() {
        let empty: Vec<SpawnCommand> = Vec::new();
        proof {
            assert(deps@.skip(from as int).len() == 0);
            assert(cmd_views(empty@) =~= Seq::<CmdView>::empty());
        }
        return Ok(empty);
    }
    proof {
        assert(deps@.skip(from as int)[0] == deps@[from as int]);
        assert(deps@.skip(from as int).drop_first() =~= deps@.skip(from + 1));
    }
    let dep_cfg = match map.get(deps[from].as_str()) {
        Some(d) => d,
        None => {
            let mut m = String::new();
            m.append("Dependency '");
            m.append(deps[from].as_str());
            m.append("' not found for task '");
            m.append(parent);
            m.append("'");
            proof {
                assert(m@ =~= msg_dep_not_found(deps@[from as int]@, parent@));
            }
            return Err(MartyError::Task(m));
        },
    };
    let mut out = match plan_task(map, dep_cfg, targets, depth) {
        Ok(cs) => cs,
        Err(e) => {
            return Err(e);
        },
    };
    let ghost head = cmd_views(out@);
    match plan_deps(map, parent, deps, from + 1, targets, depth) {
        Ok(rest) => {
            let mut rest_v = rest;
            let ghost tail = cmd_views(rest_v@);
            out.append(&mut rest_v);
            proof {
                assert(cmd_views(out@) =~= head + tail);
            }
            Ok(out)
        },
        Err(e) => Err(e),
    }
}

/// The environment variable name for target index `i`.
pub open spec fn env_var_name(i: nat) -> Seq<char> {
    "MARTY_TARGET_"@ + dec_rep(i)
}

/// The environment pairs accompanying a spawn: one numbered variable per
/// target.
pub fn target_env_pairs(targets: &Vec<String>) -> (r: Vec<(String, String)>)
    ensures
        r@.len() == targets@.len(),
        forall|i: int|
            0 <= i < r@.len() ==> (#[trigger] r@[i].0@) == env_var_name(i as nat) && r@[i].1@
                == targets@[i]@,
{
    let mut out: Vec<(String, String)> = Vec::new();
    let mut i: usize = 0;
    while i < targets.len()
        invariant
            i <= targets@.len(),
            out@.len() == i,
            forall|j: int|
                0 <= j < i ==> (#[trigger] out@[j].0@) == env_var_name(j as nat) && out@[j].1@
                    == targets@[j]@,
        decreases targets@.len() - i,
    {
        let mut name = String::new();
        name.append("MARTY_TARGET_");
        let digits = usize_to_string(i);
        name.append(digits.as_str());
        proof {
            assert(name@ =~= env_var_name(i as nat));
        }
        out.push((name, targets[i].clone()));
        i = i + 1;
    }
    out
}


/// The effective task for a project: the project's own binding
/// (`project:task`) if present, else the workspace binding.
pub open spec fn effective_task(
    m: Seq<(String, TaskConfig)>,
    project: Seq<char>,
    task: Seq<char>,
) -> Option<TaskConfig> {
    match map_get_spec(m, project + ":"@ + task) {
        Some(t) => Some(t),
        None => map_get_spec(m, task),
    }
}

/// The spawns of running the task on one project.
pub open spec fn plan_for_project(
    m: Seq<(String, TaskConfig)>,
    project: Seq<char>,
    task: Seq<char>,
    depth: nat,
) -> Result<Seq<CmdView>, Seq<char>> {
    match effective_task(m, project, task) {
        None => Err(msg_task_missing_for(task, project)),
        Some(cfg) => plan_task_spec(m, cfg, seq![project], depth),
    }
}

/// The spawns of running the task on each named project in order; the
/// first failure wins.
pub open spec fn plans_for(
    m: Seq<(String, TaskConfig)>,
    names: Seq<Seq<char>>,
    task: Seq<char>,
    depth: nat,
) -> Result<Seq<CmdView>, Seq<char>>
    decreases names.len(),
{
    if names.len() == 0 {
        Ok(Seq::empty())
    } else {
        match plans_for(m, names.drop_last(), task, depth) {
            Err(e) => Err(e),
            Ok(pre) => match plan_for_project(m, names.last(), task, depth) {
                Err(e) => Err(e),
                Ok(cs) => Ok(pre + cs),
            },
        }
    }
}

/// An error on a prefix is an error on the whole list.
proof fn lemma_plans_for_prefix_err(
    m: Seq<(String, TaskConfig)>,
    names: Seq<Seq<char>>,
    k: int,
    task: Seq<char>,
    depth: nat,
    e: Seq<char>,
)
    requires
        0 <= k <= names.len(),
        plans_for(m, names.subrange(0, k), task, depth) == Err::<Seq<CmdView>, Seq<char>>(e),
    ensures
        plans_for(m, names, task, depth) == Err::<Seq<CmdView>, Seq<char>>(e),
    decreases names.len(),
{
    if k < names.len() {
        assert(names.drop_last().subrange(0, k) =~= names.subrange(0, k));
        lemma_plans_for_prefix_err(m, names.drop_last(), k, task, depth, e);
    } else {
        assert(names.subrange(0, k) =~= names);
    }
}

/// The flattened name order of a level list.
pub open spec fn flatten_names(levels: Seq<Vec<String>>) -> Seq<Seq<char>>
    decreases levels.len(),
{
    if levels.len() == 0 {
        Seq::empty()
    } else {
        flatten_names(levels.drop_last()) + views(levels.last()@)
    }
}

/// The depth budget that admits every acyclic dependency chain over the
/// map's bindings.
pub open spec fn runner_depth(m: Seq<(String, TaskConfig)>) -> nat {
    if m.len() == 0 {
        1
    } else {
        m.len()
    }
}

/// The base task is known: bound directly, or as a project override.
pub open spec fn base_task_known(m: Seq<(String, TaskConfig)>, task: Seq<char>) -> bool {
    ||| map_get_spec(m, task) is Some
    ||| exists|i: int| 0 <= i < m.len() && (":"@ + task).is_suffix_of(#[trigger] m[i].0@)
}

/// What a successful run plan promises: the targets resolved to their
/// dependency closure, the closure was grouped into levels, and the
/// resulting spawns are exactly the per-project plans in level order.
pub open spec fn runner_ok(
    w: &Workspace,
    m: Seq<(String, TaskConfig)>,
    task: Seq<char>,
    targets: Seq<String>,
    cs: Seq<CmdView>,
) -> bool {
    &&& base_task_known(m, task)
    &&& exists|full: Seq<String>, levels: Seq<Vec<String>>|
        {
            &&& #[trigger] recursive_deps_ok(w, targets, full)
            &&& #[trigger] level_grouping_ok(w, full, levels)
            &&& plans_for(m, flatten_names(levels), task, runner_depth(m)) == Ok::<
                Seq<CmdView>,
                Seq<char>,
            >(cs)
        }
}

/// Why a run fails: unknown base task, dependency resolution failure,
/// level grouping failure, or a per-project planning failure, in that
/// order of checks.
pub open spec fn runner_failure(
    w: &Workspace,
    m: Seq<(String, TaskConfig)>,
    task: Seq<char>,
    targets: Seq<String>,
    e: MartyError,
) -> bool {
    ||| (!base_task_known(m, task) && e.message_view() == crate::task_execution::msg_task_not_found(
        task,
    ))
    ||| (base_task_known(m, task) && (exists|msg: Seq<char>|
        #[trigger] recursive_deps_failure(w, targets, msg) && e.message_view() == msg))
    ||| (base_task_known(m, task) && (exists|full: Seq<String>|
        #[trigger] recursive_deps_ok(w, targets, full) && level_grouping_failure(w, full, e)))
    ||| (base_task_known(m, task) && (exists|full: Seq<String>, levels: Seq<Vec<String>>|
        {
            &&& #[trigger] recursive_deps_ok(w, targets, full)
            &&& #[trigger] level_grouping_ok(w, full, levels)
            &&& plans_for(m, flatten_names(levels), task, runner_depth(m)) == Err::<
                Seq<CmdView>,
                Seq<char>,
            >(e.message_view())
        }))
}

/// The task runner: turns a target list into the ordered spawns of one
/// task across the dependency closure, level by level.
pub struct TaskRunner<'a> {
    pub workspace: &'a Workspace,
}

impl<'a> TaskRunner<'a> {
    /// A runner over the given workspace.
    pub fn new(workspace: &'a Workspace) -> (r: TaskRunner<'a>)
        ensures
            r.workspace == workspace,
    {
        TaskRunner { workspace }
    }

    /// Plan one task across the targets and their dependencies.
    pub fn run_task_on_targets(
        &self,
        task_name: &str,
        targets: &Vec<String>,
        all_tasks: &TaskMap,
    ) -> (r: MartyResult<Vec<SpawnCommand>>)
        requires
            self.workspace.graph_ok(),
        ensures
            match r {
                Ok(cs) => runner_ok(
                    self.workspace,
                    all_tasks.entries@,
                    task_name@,
                    targets@,
                    cmd_views(cs@),
                ),
                Err(e) => runner_failure(
                    self.workspace,
                    all_tasks.entries@,
                    task_name@,
                    targets@,
                    e,
                ),
            },
    {
        let mut suffix = String::new();
        suffix.append(":");
        suffix.append(task_name);
        proof {
            assert(suffix@ =~= ":"@ + task_name@);
        }
        let direct = all_tasks.get(task_name);
        let base = direct.is_some() || all_tasks.any_key_has_suffix(suffix.as_str());
        if !base {
            let mut msg = String::new();
            msg.append("Task '");
            msg.append(task_name);
            msg.append("' not found");
            proof {
                assert(msg@ =~= crate::task_execution::msg_task_not_found(task_name@));
                assert(runner_failure(
                    self.workspace,
                    all_tasks.entries@,
                    task_name@,
                    targets@,
                    MartyError::Task(msg),
                ));
            }
            return Err(MartyError::Task(msg));
        }
        let full = match get_recursive_dependencies(self.workspace, targets) {
            Ok(full) => full,
            Err(m) => {
                proof {
                    assert(runner_failure(
                        self.workspace,
                        all_tasks.entries@,
                        task_name@,
                        targets@,
                        MartyError::Task(m),
                    ));
                }
                return Err(MartyError::Task(m));
            },
        };
        let levels = match group_by_dependency_levels(self.workspace, &full) {
            Ok(levels) => levels,
            Err(e) => {
                proof {
                    assert(runner_failure(
                        self.workspace,
                        all_tasks.entries@,
                        task_name@,
                        targets@,
                        e,
                    ));
                }
                return Err(e);
            },
        };
        let depth: usize = if all_tasks.entries.len() == 0 {
            1
        } else {
            all_tasks.entries.len()
        };
        let mut cmds: Vec<SpawnCommand> = Vec::new();
        let ghost mut done: Seq<Seq<char>> = Seq::empty();
        let mut li: usize = 0;
        proof {
            assert(cmd_views(cmds@) =~= Seq::<CmdView>::empty());
        }
        while li < levels.len()
            invariant
                self.workspace.graph_ok(),
                base_task_known(all_tasks.entries@, task_name@),
                recursive_deps_ok(self.workspace, targets@, full@),
                level_grouping_ok(self.workspace, full@, levels@),
                depth as nat == runner_depth(all_tasks.entries@),
                li <= levels@.len(),
                done == flatten_names(levels@.subrange(0, li as int)),
                plans_for(all_tasks.entries@, done, task_name@, depth as nat) == Ok::<
                    Seq<CmdView>,
                    Seq<char>,
                >(cmd_views(cmds@)),
            decreases levels@.len() - li,
        {
            let level = &levels[li];
            let mut pi: usize = 0;
            while pi < level.len()
                invariant
                    self.workspace.graph_ok(),
                    base_task_known(all_tasks.entries@, task_name@),
                    recursive_deps_ok(self.workspace, targets@, full@),
                    level_grouping_ok(self.workspace, full@, levels@),
                    depth as nat == runner_depth(all_tasks.entries@),
                    (li as int) < levels@.len(),
                    level == levels@[li as int],
                    pi <= level@.len(),
                    done == flatten_names(levels@.subrange(0, li as int)) + views(
                        level@.subrange(0, pi as int),
                    ),
                    plans_for(all_tasks.entries@, done, task_name@, depth as nat) == Ok::<
                        Seq<CmdView>,
                        Seq<char>,
                    >(cmd_views(cmds@)),
                decreases level@.len() - pi,
            {
                let project = &level[pi];
                let mut key = String::new();
                key.append(project.as_str());
                key.append(":");
                key.append(task_name);
                proof {
                    assert(key@ =~= project@ + ":"@ + task_name@);
                }
                let cfg = match all_tasks.get(key.as_str()) {
                    Some(c) => c,
                    None => match all_tasks.get(task_name) {
                        Some(c) => c,
                        None => {
                            let mut msg = String::new();
                            msg.append("Task '");
                            msg.append(task_name);
                            msg.append("' not found for project '");
                            msg.append(project.as_str());
                            msg.append("'");
                            proof {
                                assert(msg@ =~= msg_task_missing_for(task_name@, project@));
                                lemma_runner_err_propagates(
                                    self.workspace,
                                    all_tasks.entries@,
                                    task_name@,
                                    targets@,
                                    full@,
                                    levels@,
                                    done,
                                    li as int,
                                    pi as int,
                                    msg@,
                                );
                                assert(runner_failure(
                                    self.workspace,
                                    all_tasks.entries@,
                                    task_name@,
                                    targets@,
                                    MartyError::Task(msg),
                                ));
                            }
                            return Err(MartyError::Task(msg));
                        },
                    },
                };
                let mut single_target: Vec<String> = Vec::new();
                single_target.push(project.clone());
                let planned = match plan_task(all_tasks, cfg, &single_target, depth) {
                    Ok(cs) => cs,
                    Err(e) => {
                        proof {
                            assert(views(single_target@) =~= seq![project@]);
                            lemma_runner_err_propagates(
                                self.workspace,
                                all_tasks.entries@,
                                task_name@,
                                targets@,
                                full@,
                                levels@,
                                done,
                                li as int,
                                pi as int,
                                e.message_view(),
                            );
                            assert(runner_failure(
                                self.workspace,
                                all_tasks.entries@,
                                task_name@,
                                targets@,
                                e,
                            ));
                        }
                        return Err(e);
                    },
                };
                let ghost pre_cmds = cmd_views(cmds@);
                let mut planned_v = planned;
                let ghost planned_views = cmd_views(planned_v@);
                cmds.append(&mut planned_v);
                proof {
                    assert(views(single_target@) =~= seq![project@]);
                    assert(cmd_views(cmds@) =~= pre_cmds + planned_views);
                    let done2 = done.push(project@);
                    assert(done2.drop_last() =~= done);
                    assert(plan_for_project(all_tasks.entries@, project@, task_name@, depth as nat)
                        == Ok::<Seq<CmdView>, Seq<char>>(planned_views));
                    assert(plans_for(all_tasks.entries@, done2, task_name@, depth as nat) == Ok::<
                        Seq<CmdView>,
                        Seq<char>,
                    >(cmd_views(cmds@)));
                    done = done2;
                    assert(level@.subrange(0, pi + 1) =~= level@.subrange(0, pi as int).push(
                        level@[pi as int],
                    ));
                    assert(views(level@.subrange(0, pi + 1)) =~= views(
                        level@.subrange(0, pi as int),
                    ).push(level@[pi as int]@));
                    assert(done =~= flatten_names(levels@.subrange(0, li as int)) + views(
                        level@.subrange(0, pi + 1),
                    ));
                }
                pi = pi + 1;
            }
            proof {
                let ext = levels@.subrange(0, li + 1);
                assert(ext.drop_last() =~= levels@.subrange(0, li as int));
                assert(ext.last() == levels@[li as int]);
                assert(level@.subrange(0, level@.len() as int) =~= level@);
                assert(done =~= flatten_names(ext));
            }
            li = li + 1;
        }
        proof {
            assert(levels@.subrange(0, levels@.len() as int) =~= levels@);
            assert(runner_ok(
                self.workspace,
                all_tasks.entries@,
                task_name@,
                targets@,
                cmd_views(cmds@),
            ));
        }
        Ok(cmds)
    }
}

/// A planning error inside the level walk is a failure of the whole
/// flattened plan.
proof fn lemma_runner_err_propagates(
    w: &Workspace,
    m: Seq<(String, TaskConfig)>,
    task: Seq<char>,
    targets: Seq<String>,
    full: Seq<String>,
    levels: Seq<Vec<String>>,
    done: Seq<Seq<char>>,
    li: int,
    pi: int,
    msg: Seq<char>,
)
    requires
        0 <= li < levels.len(),
        0 <= pi < levels[li]@.len(),
        done == flatten_names(levels.subrange(0, li)) + views(levels[li]@.subrange(0, pi)),
        plans_for(m, done, task, runner_depth(m)) is Ok,
        plan_for_project(m, levels[li]@[pi]@, task, runner_depth(m)) == Err::<
            Seq<CmdView>,
            Seq<char>,
        >(msg),
    ensures
        plans_for(m, flatten_names(levels), task, runner_depth(m)) == Err::<
            Seq<CmdView>,
            Seq<char>,
        >(msg),
{
    let done2 = done.push(levels[li]@[pi]@);
    assert(done2.drop_last() =~= done);
    assert(plans_for(m, done2, task, runner_depth(m)) == Err::<Seq<CmdView>, Seq<char>>(msg));
    // done2 is a prefix of the flattened level order
    lemma_flatten_prefix(levels, li, pi);
    assert(flatten_names(levels).subrange(0, done2.len() as int) =~= done2);
    lemma_plans_for_prefix_err(
        m,
        flatten_names(levels),
        done2.len() as int,
        task,
        runner_depth(m),
        msg,
    );
}

/// The names before position `(li, pi)`, with the one at it, form a
/// prefix of the flattened level order.
proof fn lemma_flatten_prefix(levels: Seq<Vec<String>>, li: int, pi: int)
    requires
        0 <= li < levels.len(),
        0 <= pi < levels[li]@.len(),
    ensures
        ({
            let done2 = (flatten_names(levels.subrange(0, li)) + views(
                levels[li]@.subrange(0, pi),
            )).push(levels[li]@[pi]@);
            &&& done2.len() <= flatten_names(levels).len()
            &&& flatten_names(levels).subrange(0, done2.len() as int) =~= done2
        }),
    decreases levels.len(),
{
    if li == levels.len() - 1 {
        assert(flatten_names(levels) =~= flatten_names(levels.drop_last()) + views(
            levels.last()@,
        ));
        assert(levels.subrange(0, li) =~= levels.drop_last());
    } else {
        lemma_flatten_prefix(levels.drop_last(), li, pi);
        assert(levels.drop_last().subrange(0, li) =~= levels.subrange(0, li));
        assert(levels.drop_last()[li] == levels[li]);
        assert(flatten_names(levels) =~= flatten_names(levels.drop_last()) + views(
            levels.last()@,
        ));
        let done2 = (flatten_names(levels.subrange(0, li)) + views(
            levels[li]@.subrange(0, pi),
        )).push(levels[li]@[pi]@);
        assert(flatten_names(levels.drop_last()).subrange(0, done2.len() as int) =~= done2);
        assert(flatten_names(levels).subrange(0, done2.len() as int) =~= flatten_names(
            levels.drop_last(),
        ).subrange(0, done2.len() as int));
    }
}


/// An empty command list is a successful no-op: a task whose command is
/// an empty list, with no script and no dependencies, plans no spawn at
/// all.
pub proof fn lemma_empty_command_is_noop(
    m: Seq<(String, TaskConfig)>,
    cfg: TaskConfig,
    targets: Seq<Seq<char>>,
    depth: nat,
)
    requires
        depth > 0,
        cfg.script is None,
        cfg.dependencies is None,
        cfg.command matches Some(Command::Multiple(v)) && v@.len() == 0,
    ensures
        plan_task_spec(m, cfg, targets, depth) == Ok::<Seq<CmdView>, Seq<char>>(
            Seq::<CmdView>::empty(),
        ),
{
}

/// The plan of a task is a pure function of the task map, the task, and
/// the targets: planning the same run twice yields the same spawns (and
/// so, when every spawn behaves the same, the same outcome).
pub proof fn lemma_task_plan_deterministic(
    m: Seq<(String, TaskConfig)>,
    names: Seq<Seq<char>>,
    task: Seq<char>,
    depth: nat,
    r1: Result<Seq<CmdView>, Seq<char>>,
    r2: Result<Seq<CmdView>, Seq<char>>,
)
    requires
        r1 == plans_for(m, names, task, depth),
        r2 == plans_for(m, names, task, depth),
    ensures
        r1 == r2,
{
}

} // verus!
