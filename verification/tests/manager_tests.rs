use marty_core::configs::{Command, ProjectConfig, TaskConfig, TasksFileConfig, WorkspaceConfig};
use marty_core::execution::CommandKind;
use marty_core::protocol::{InferredProject, Project};
use marty_core::workspace::{build_dependency_graph, Workspace};
use marty_core::workspace_manager::WorkspaceManager;

fn shell_task(name: &str, cmd: &str) -> TaskConfig {
    TaskConfig {
        name: name.to_string(),
        description: None,
        script: None,
        command: Some(Command::Single(cmd.to_string())),
        dependencies: None,
        override_targets: None,
    }
}

fn manager(projects: Vec<(&str, Vec<&str>, Option<Vec<&str>>)>, tasks: Vec<TaskConfig>) -> WorkspaceManager {
    let explicit: Vec<Project> = projects
        .iter()
        .map(|(n, _, tags)| Project {
            name: n.to_string(),
            project_dir: format!("/ws/{}", n),
            file_path: Some(format!("/ws/{}/marty.yml", n)),
            dependencies: Vec::new(),
            config: tags.as_ref().map(|ts| ProjectConfig {
                name: Some(n.to_string()),
                description: None,
                tags: Some(ts.iter().map(|t| t.to_string()).collect()),
                dependencies: None,
                tasks: None,
            }),
        })
        .collect();
    let inferred: Vec<InferredProject> = projects
        .iter()
        .map(|(n, deps, _)| InferredProject {
            name: n.to_string(),
            project_dir: format!("/ws/{}", n),
            discovered_by: "cargo".to_string(),
            workspace_dependencies: deps.iter().map(|d| d.to_string()).collect(),
        })
        .collect();
    let mut workspace = Workspace {
        root: "/ws".to_string(),
        projects: explicit,
        inferred_projects: inferred,
        dep_graph: None,
        dependency_cycles: Vec::new(),
    };
    build_dependency_graph(&mut workspace).unwrap();
    WorkspaceManager {
        workspace,
        task_configs: TasksFileConfig {
            name: None,
            description: None,
            tasks,
            tags: None,
            targets: None,
        },
        workspace_config: WorkspaceConfig {
            name: None,
            description: None,
            plugins: None,
            includes: None,
            excludes: None,
        },
    }
}

#[test]
fn empty_workspace_lists_nothing() {
    let m = manager(vec![], vec![]);
    let list = m.list_projects(true).unwrap();
    assert!(list.explicit_projects.is_empty());
    assert!(list.inferred_projects.is_empty());
}

#[test]
fn empty_workspace_reports_no_graph_available() {
    let m = manager(vec![], vec![]);
    let res = m.get_dependency_graph().unwrap();
    assert!(res.graph.is_none());
    assert!(res.cycles.is_empty());
}

#[test]
fn empty_workspace_rejects_every_target() {
    let m = manager(vec![], vec![]);
    let err = m.run_task("build").unwrap_err();
    assert_eq!(err.message(), "Task 'build' not found");
}

#[test]
fn listing_marks_tracked_inferred_projects() {
    let m = manager(vec![("app", vec![], Some(vec!["rust"]))], vec![]);
    let list = m.list_projects(true).unwrap();
    assert_eq!(list.explicit_projects.len(), 1);
    assert_eq!(list.explicit_projects[0].name, "app");
    assert_eq!(list.explicit_projects[0].tags, vec!["rust".to_string()]);
    assert!(list.explicit_projects[0].has_config);
    assert_eq!(list.inferred_projects.len(), 1);
    assert!(list.inferred_projects[0].is_tracked);
    let short = m.list_projects(false).unwrap();
    assert!(short.inferred_projects.is_empty());
}

#[test]
fn plans_follow_the_dependency_order() {
    let m = manager(
        vec![
            ("root", vec!["mid"], None),
            ("mid", vec!["leaf"], None),
            ("leaf", vec![], None),
        ],
        vec![shell_task("build", "echo")],
    );
    let plan = m.get_execution_plan("root:build").unwrap();
    assert_eq!(plan.task_name, "build");
    assert_eq!(plan.project_filter, Some("root".to_string()));
    assert_eq!(
        plan.compatible_projects,
        vec!["leaf".to_string(), "mid".to_string(), "root".to_string()]
    );
}

#[test]
fn running_a_target_yields_one_spawn_per_project() {
    let m = manager(
        vec![("root", vec!["leaf"], None), ("leaf", vec![], None)],
        vec![shell_task("build", "echo hi")],
    );
    let spawns = m.run_task("root:build").unwrap();
    assert_eq!(spawns.len(), 2);
    assert_eq!(spawns[0].targets, vec!["leaf".to_string()]);
    assert_eq!(spawns[1].targets, vec!["root".to_string()]);
    match &spawns[0].kind {
        CommandKind::Shell { command } => assert_eq!(command, "echo hi"),
        _ => panic!("expected a shell command"),
    }
}

#[test]
fn cycles_surface_when_a_target_resolves() {
    let m = manager(
        vec![("a", vec!["b"], None), ("b", vec!["a"], None)],
        vec![shell_task("build", "echo")],
    );
    let err = m.run_task("a:build").unwrap_err();
    assert!(err.message().contains("Circular dependency detected"));
    assert!(err.message().contains("a -> b -> a"));
}

#[test]
fn dependency_graph_copies_match() {
    let m = manager(vec![("a", vec![], None)], vec![]);
    let res = m.get_dependency_graph().unwrap();
    let g = res.graph.expect("graph was built");
    assert_eq!(g.nodes, vec!["a".to_string()]);
    assert!(res.cycles.is_empty());
}
