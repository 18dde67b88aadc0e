//! Configuration data: workspace, project, task-file and plugin settings.
//!
//! These are the parsed shapes of `workspace.yml`, `marty.yml` and the
//! task files; reading and deserialising the files themselves happens
//! outside the library, which receives the plain values.

use vstd::prelude::*;
use crate::json::JsonValue;
use crate::text::{insert_sorted_unique, sorted_views, distinct_views, views};

verus! {

/// What a task runs: one shell string, or a program with its arguments.
#[derive(Debug, Clone)]
pub enum Command {
    Single(String),
    Multiple(Vec<String>),
}

/// One task definition.
#[derive(Debug, Clone)]
pub struct TaskConfig {
    pub name: String,
    pub description: Option<String>,
    pub script: Option<String>,
    pub command: Option<Command>,
    pub dependencies: Option<Vec<String>>,
    pub override_targets: Option<Vec<String>>,
}

/// The view of a command.
pub enum CommandView {
    Single(Seq<char>),
    Multiple(Seq<Seq<char>>),
}

/// The view of a task definition, over character sequences.
pub struct TaskView {
    pub name: Seq<char>,
    pub description: Option<Seq<char>>,
    pub script: Option<Seq<char>>,
    pub command: Option<CommandView>,
    pub dependencies: Option<Seq<Seq<char>>>,
    pub override_targets: Option<Seq<Seq<char>>>,
}

impl View for TaskConfig {
    type V = TaskView;

    open spec fn view(&self) -> TaskView {
        TaskView {
            name: self.name@,
            description: match self.description {
                Some(d) => Some(d@),
                None => None,
            },
            script: match self.script {
                Some(s) => Some(s@),
                None => None,
            },
            command: match self.command {
                Some(Command::Single(c)) => Some(CommandView::Single(c@)),
                Some(Command::Multiple(v)) => Some(CommandView::Multiple(views(v@))),
                None => None,
            },
            dependencies: match self.dependencies {
                Some(d) => Some(views(d@)),
                None => None,
            },
            override_targets: match self.override_targets {
                Some(t) => Some(views(t@)),
                None => None,
            },
        }
    }
}

impl TaskConfig {
    /// A copy with the same view.
    pub fn clone_config(&self) -> (r: TaskConfig)
        ensures
            r@ == self@,
    {
        let r = TaskConfig {
            name: self.name.clone(),
            description: match &self.description {
                Some(d) => Some(d.clone()),
                None => None,
            },
            script: match &self.script {
                Some(s) => Some(s.clone()),
                None => None,
            },
            command: match &self.command {
                Some(Command::Single(c)) => Some(Command::Single(c.clone())),
                Some(Command::Multiple(v)) => Some(
                    Command::Multiple(crate::text::clone_strings(v)),
                ),
                None => None,
            },
            dependencies: match &self.dependencies {
                Some(d) => Some(crate::text::clone_strings(d)),
                None => None,
            },
            override_targets: match &self.override_targets {
                Some(t) => Some(crate::text::clone_strings(t)),
                None => None,
            },
        };
        proof {
            assert(r@ == self@);
        }
        r
    }
}

/// A task file: a bundle of tasks with optional tags and targets.
#[derive(Debug, Clone)]
pub struct TasksFileConfig {
    pub name: Option<String>,
    pub description: Option<String>,
    pub tasks: Vec<TaskConfig>,
    pub tags: Option<Vec<String>>,
    pub targets: Option<Vec<String>>,
}

/// A project's `marty.yml` settings.
#[derive(Debug, Clone)]
pub struct ProjectConfig {
    pub name: Option<String>,
    pub description: Option<String>,
    pub tags: Option<Vec<String>>,
    pub dependencies: Option<Vec<String>>,
    pub tasks: Option<Vec<TaskConfig>>,
}

/// Where a plugin comes from: a release repository with a version (and,
/// for monorepos, a plugin name), a direct URL, or a local path.
#[derive(Debug)]
pub struct PluginConfig {
    pub repository: Option<String>,
    pub version: Option<String>,
    pub plugin: Option<String>,
    pub url: Option<String>,
    pub path: Option<String>,
    pub enabled: Option<bool>,
    pub options: Option<JsonValue>,
}

/// The workspace's own settings.
#[derive(Debug)]
pub struct WorkspaceConfig {
    pub name: Option<String>,
    pub description: Option<String>,
    pub plugins: Option<Vec<PluginConfig>>,
    pub includes: Option<Vec<String>>,
    pub excludes: Option<Vec<String>>,
}

/// The concatenation of all task lists, in file order.
pub open spec fn merged_tasks(configs: Seq<TasksFileConfig>) -> Seq<TaskConfig>
    decreases configs.len(),
{
    if configs.len() == 0 {
        Seq::empty()
    } else {
        merged_tasks(configs.drop_last()) + configs.last().tasks@
    }
}

/// Last set value of a field across the files, if any.
pub open spec fn last_some(fields: Seq<Option<String>>) -> Option<String>
    decreases fields.len(),
{
    if fields.len() == 0 {
        None
    } else if fields.last() is Some {
        fields.last()
    } else {
        last_some(fields.drop_last())
    }
}

/// Last set target list across the files, if any.
pub open spec fn last_some_list(fields: Seq<Option<Vec<String>>>) -> Option<Vec<String>>
    decreases fields.len(),
{
    if fields.len() == 0 {
        None
    } else if fields.last() is Some {
        fields.last()
    } else {
        last_some_list(fields.drop_last())
    }
}

/// A tag occurs in one of the files' tag lists.
pub open spec fn tag_in_configs(configs: Seq<TasksFileConfig>, x: Seq<char>) -> bool {
    exists|c: int, t: int|
        0 <= c < configs.len() && (#[trigger] configs[c].tags) is Some && 0 <= t
            < configs[c].tags->0@.len() && (#[trigger] configs[c].tags->0@[t]@) == x
}

/// Merge task files: tasks are concatenated, the singleton fields take the
/// last value written, and the tags are the sorted union of all files'
/// tags (`None` when no file tagged anything).
pub fn merge_task_configs(configs: Vec<TasksFileConfig>) -> (r: TasksFileConfig)
    ensures
        r.tasks@ == merged_tasks(configs@),
        r.name == last_some(configs@.map_values(|c: TasksFileConfig| c.name)),
        r.description == last_some(configs@.map_values(|c: TasksFileConfig| c.description)),
        r.targets == last_some_list(configs@.map_values(|c: TasksFileConfig| c.targets)),
        match r.tags {
            Some(tags) => {
                &&& sorted_views(tags@)
                &&& distinct_views(tags@)
                &&& tags@.len() > 0
                &&& forall|x: Seq<char>|
                    #[trigger] views(tags@).contains(x) <==> tag_in_configs(configs@, x)
            },
            None => forall|x: Seq<char>| !tag_in_configs(configs@, x),
        },
{
    let ghost all = configs@;
    let mut rest = configs;
    let mut all_tasks: Vec<TaskConfig> = Vec::new();
    let mut name: Option<String> = None;
    let mut description: Option<String> = None;
    let mut targets: Option<Vec<String>> = None;
    let mut all_tags: Vec<String> = Vec::new();
    let ghost mut i: int = 0;
    proof {
        assert(all.skip(0) =~= all);
    }
    while rest.len() > 0
        invariant
            0 <= i <= all.len(),
            rest@ == all.skip(i),
            all_tasks@ == merged_tasks(all.subrange(0, i)),
            name == last_some(all.subrange(0, i).map_values(|c: TasksFileConfig| c.name)),
            description == last_some(
                all.subrange(0, i).map_values(|c: TasksFileConfig| c.description),
            ),
            targets == last_some_list(
                all.subrange(0, i).map_values(|c: TasksFileConfig| c.targets),
            ),
            sorted_views(all_tags@),
            distinct_views(all_tags@),
            forall|x: Seq<char>|
                #[trigger] views(all_tags@).contains(x) <==> tag_in_configs(
                    all.subrange(0, i),
                    x,
                ),
        decreases rest@.len(),
    {
        let ghost prefix = all.subrange(0, i);
        let c = rest.remove(0);
        proof {
            assert(rest@ =~= all.skip(i + 1));
            assert(c == all[i]);
        }
        let mut tasks = c.tasks;
        let ghost ctasks = tasks@;
        let ghost mut t: int = 0;
        while tasks.len() > 0
            invariant
                0 <= t <= ctasks.len(),
                tasks@ == ctasks.skip(t),
                all_tasks@ == merged_tasks(all.subrange(0, i)) + ctasks.subrange(0, t),
            decreases tasks@.len(),
        {
            let task = tasks.remove(0);
            proof {
                assert(tasks@ =~= ctasks.skip(t + 1));
                assert(task == ctasks[t]);
            }
            all_tasks.push(task);
            proof {
                assert(ctasks.subrange(0, t + 1) =~= ctasks.subrange(0, t).push(ctasks[t]));
                assert(all_tasks@ =~= merged_tasks(all.subrange(0, i)) + ctasks.subrange(
                    0,
                    t + 1,
                ));
                t = t + 1;
            }
        }
        if c.name.is_some() {
            name = c.name;
        }
        if c.description.is_some() {
            description = c.description;
        }
        if c.targets.is_some() {
            targets = c.targets;
        }
        match c.tags {
            Some(tags_in) => {
                proof {
                    assert(all[i].tags == Some(tags_in));
                }
                let mut tags = tags_in;
                let ghost ctags = tags@;
                proof {
                    assert(ctags == all[i].tags->0@);
                }
                let ghost mut t2: int = 0;
                while tags.len() > 0
                    invariant
                        0 <= t2 <= ctags.len(),
                        tags@ == ctags.skip(t2),
                        sorted_views(all_tags@),
                        distinct_views(all_tags@),
                        forall|x: Seq<char>|
                            #[trigger] views(all_tags@).contains(x) <==> (tag_in_configs(
                                all.subrange(0, i),
                                x,
                            ) || exists|t3: int| 0 <= t3 < t2 && (#[trigger] ctags[t3]@) == x),
                    decreases tags@.len(),
                {
                    let tag = tags.remove(0);
                    proof {
                        assert(tags@ =~= ctags.skip(t2 + 1));
                        assert(tag == ctags[t2]);
                    }
                    insert_sorted_unique(&mut all_tags, tag);
                    proof {
                        t2 = t2 + 1;
                    }
                }
            },
            None => {},
        }
        proof {
            let ext = all.subrange(0, i + 1);
            assert(ext.drop_last() =~= prefix);
            assert(ext.last() == all[i]);
            assert(all_tasks@ =~= merged_tasks(ext)) by {
                assert(ctasks.subrange(0, ctasks.len() as int) =~= ctasks);
                assert(all[i].tasks@ == ctasks);
            }
            assert(ext.map_values(|cc: TasksFileConfig| cc.name).drop_last() =~= prefix.map_values(
                |cc: TasksFileConfig| cc.name,
            ));
            assert(ext.map_values(|cc: TasksFileConfig| cc.name).last() == all[i].name);
            assert(ext.map_values(|cc: TasksFileConfig| cc.description).drop_last()
                =~= prefix.map_values(|cc: TasksFileConfig| cc.description));
            assert(ext.map_values(|cc: TasksFileConfig| cc.description).last()
                == all[i].description);
            assert(ext.map_values(|cc: TasksFileConfig| cc.targets).drop_last()
                =~= prefix.map_values(|cc: TasksFileConfig| cc.targets));
            assert(ext.map_values(|cc: TasksFileConfig| cc.targets).last() == all[i].targets);
            assert forall|x: Seq<char>| #[trigger] views(all_tags@).contains(x) <==> tag_in_configs(
                ext,
                x,
            ) by {
                if views(all_tags@).contains(x) {
                    if tag_in_configs(prefix, x) {
                        let (cc, tt) = choose|cc: int, tt: int|
                            0 <= cc < prefix.len() && (#[trigger] prefix[cc].tags) is Some && 0
                                <= tt < prefix[cc].tags->0@.len() && (
                            #[trigger] prefix[cc].tags->0@[tt]@) == x;
                        assert(ext[cc] == prefix[cc]);
                        assert(tag_in_configs(ext, x));
                    } else {
                        assert(all[i].tags is Some);
                        assert(tag_in_configs(ext, x)) by {
                            let t3 = choose|t3: int|
                                0 <= t3 < all[i].tags->0@.len() && (
                                #[trigger] all[i].tags->0@[t3]@) == x;
                            assert(ext[i] == all[i]);
                        }
                    }
                }
                if tag_in_configs(ext, x) {
                    let (cc, tt) = choose|cc: int, tt: int|
                        0 <= cc < ext.len() && (#[trigger] ext[cc].tags) is Some && 0 <= tt < ext[
                            cc].tags->0@.len() && (#[trigger] ext[cc].tags->0@[tt]@) == x;
                    if cc < i {
                        assert(prefix[cc] == ext[cc]);
                        assert(tag_in_configs(prefix, x));
                    } else {
                        assert(ext[cc] == all[i]);
                        assert(views(all_tags@).contains(x));
                    }
                }
            }
            i = i + 1;
        }
    }
    proof {
        assert(all.subrange(0, all.len() as int) =~= all);
    }
    let tags_opt: Option<Vec<String>> = if all_tags.len() == 0 {
        proof {
            assert forall|x: Seq<char>| !tag_in_configs(all, x) by {
                if tag_in_configs(all, x) {
                    assert(views(all_tags@).contains(x));
                }
            }
        }
        None
    } else {
        Some(all_tags)
    };
    TasksFileConfig { name, description, tasks: all_tasks, tags: tags_opt, targets }
}

} // verus!
