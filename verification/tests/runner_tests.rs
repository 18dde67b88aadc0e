use marty_core::configs::{Command, TaskConfig};
use marty_core::execution::{
    plan_task, target_env_pairs, CommandKind, SpawnCommand, TaskMap, TaskRunner,
};
use marty_core::protocol::{InferredProject, Project};
use marty_core::workspace::{build_dependency_graph, Workspace};

fn shell_task(name: &str, cmd: &str) -> TaskConfig {
    TaskConfig {
        name: name.to_string(),
        description: None,
        script: None,
        command: Some(Command::Single(cmd.to_string())),
        dependencies: None,
        override_targets: None,
    }
}

fn targets(names: &[&str]) -> Vec<String> {
    names.iter().map(|n| n.to_string()).collect()
}

fn shell_of(c: &SpawnCommand) -> String {
    match &c.kind {
        CommandKind::Shell { command } => command.clone(),
        _ => panic!("expected a shell command"),
    }
}

#[test]
fn empty_multiple_command_plans_nothing() {
    let map = TaskMap::new();
    let cfg = TaskConfig {
        name: "noop".to_string(),
        description: None,
        script: None,
        command: Some(Command::Multiple(vec![])),
        dependencies: None,
        override_targets: None,
    };
    let plan = plan_task(&map, &cfg, &targets(&["a"]), 1).unwrap();
    assert!(plan.is_empty());
}

#[test]
fn program_commands_split_program_and_arguments() {
    let map = TaskMap::new();
    let cfg = TaskConfig {
        name: "compile".to_string(),
        description: None,
        script: None,
        command: Some(Command::Multiple(vec![
            "cc".to_string(),
            "-O".to_string(),
            "main.c".to_string(),
        ])),
        dependencies: None,
        override_targets: None,
    };
    let plan = plan_task(&map, &cfg, &targets(&["a"]), 1).unwrap();
    assert_eq!(plan.len(), 1);
    match &plan[0].kind {
        CommandKind::Program { program, args } => {
            assert_eq!(program, "cc");
            assert_eq!(args, &vec!["-O".to_string(), "main.c".to_string()]);
        }
        _ => panic!("expected a program command"),
    }
    assert_eq!(plan[0].targets, vec!["a".to_string()]);
}

#[test]
fn dependencies_run_before_their_task() {
    let mut map = TaskMap::new();
    map.insert("prep".to_string(), shell_task("prep", "echo prep"));
    let cfg = TaskConfig {
        name: "build".to_string(),
        description: None,
        script: None,
        command: Some(Command::Single("echo build".to_string())),
        dependencies: Some(vec!["prep".to_string()]),
        override_targets: None,
    };
    let plan = plan_task(&map, &cfg, &targets(&["a"]), 2).unwrap();
    assert_eq!(plan.len(), 2);
    assert_eq!(shell_of(&plan[0]), "echo prep");
    assert_eq!(shell_of(&plan[1]), "echo build");
}

#[test]
fn unknown_dependency_fails_with_exact_message() {
    let map = TaskMap::new();
    let cfg = TaskConfig {
        name: "build".to_string(),
        description: None,
        script: None,
        command: Some(Command::Single("echo".to_string())),
        dependencies: Some(vec!["ghost".to_string()]),
        override_targets: None,
    };
    let err = plan_task(&map, &cfg, &targets(&["a"]), 2).unwrap_err();
    assert_eq!(err.message(), "Dependency 'ghost' not found for task 'build'");
}

#[test]
fn task_without_script_or_command_fails() {
    let map = TaskMap::new();
    let cfg = TaskConfig {
        name: "hollow".to_string(),
        description: None,
        script: None,
        command: None,
        dependencies: None,
        override_targets: None,
    };
    let err = plan_task(&map, &cfg, &targets(&["a"]), 1).unwrap_err();
    assert_eq!(err.message(), "Task 'hollow' has no script or command to execute");
}

#[test]
fn circular_task_dependencies_fail() {
    let mut map = TaskMap::new();
    let mut a = shell_task("a", "echo a");
    a.dependencies = Some(vec!["b".to_string()]);
    let mut b = shell_task("b", "echo b");
    b.dependencies = Some(vec!["a".to_string()]);
    map.insert("a".to_string(), a.clone_config());
    map.insert("b".to_string(), b);
    let err = plan_task(&map, &a, &targets(&["t"]), 2).unwrap_err();
    assert!(err.message().contains("circular task dependencies"));
}

#[test]
fn override_targets_replace_the_callers() {
    let map = TaskMap::new();
    let cfg = TaskConfig {
        name: "deploy".to_string(),
        description: None,
        script: Some("run.sh".to_string()),
        command: None,
        dependencies: None,
        override_targets: Some(vec!["prod".to_string()]),
    };
    let plan = plan_task(&map, &cfg, &targets(&["dev"]), 1).unwrap();
    assert_eq!(plan.len(), 1);
    assert_eq!(plan[0].targets, vec!["prod".to_string()]);
    match &plan[0].kind {
        CommandKind::Script { path } => assert_eq!(path, "run.sh"),
        _ => panic!("expected a script"),
    }
}

#[test]
fn run_task_orders_projects_by_levels() {
    let names = ["root", "mid", "leaf"];
    let deps: Vec<(&str, Vec<&str>)> =
        vec![("root", vec!["mid"]), ("mid", vec!["leaf"]), ("leaf", vec![])];
    let projects: Vec<Project> = names
        .iter()
        .map(|n| Project {
            name: n.to_string(),
            project_dir: format!("/ws/{}", n),
            file_path: Some(format!("/ws/{}/marty.yml", n)),
            dependencies: Vec::new(),
            config: None,
        })
        .collect();
    let inferred: Vec<InferredProject> = deps
        .iter()
        .map(|(n, ds)| InferredProject {
            name: n.to_string(),
            project_dir: format!("/ws/{}", n),
            discovered_by: "cargo".to_string(),
            workspace_dependencies: ds.iter().map(|d| d.to_string()).collect(),
        })
        .collect();
    let mut w = Workspace {
        root: "/ws".to_string(),
        projects,
        inferred_projects: inferred,
        dep_graph: None,
        dependency_cycles: Vec::new(),
    };
    build_dependency_graph(&mut w).unwrap();

    let mut map = TaskMap::new();
    map.insert("build".to_string(), shell_task("build", "echo"));

    let runner = TaskRunner::new(&w);
    let plan = runner
        .run_task_on_targets("build", &targets(&["root"]), &map)
        .unwrap();
    assert_eq!(plan.len(), 3);
    assert_eq!(plan[0].targets, vec!["leaf".to_string()]);
    assert_eq!(plan[1].targets, vec!["mid".to_string()]);
    assert_eq!(plan[2].targets, vec!["root".to_string()]);
}

#[test]
fn project_overrides_replace_the_workspace_task() {
    let mut w = Workspace {
        root: "/ws".to_string(),
        projects: vec![Project {
            name: "app".to_string(),
            project_dir: "/ws/app".to_string(),
            file_path: None,
            dependencies: Vec::new(),
            config: None,
        }],
        inferred_projects: vec![InferredProject {
            name: "app".to_string(),
            project_dir: "/ws/app".to_string(),
            discovered_by: "cargo".to_string(),
            workspace_dependencies: Vec::new(),
        }],
        dep_graph: None,
        dependency_cycles: Vec::new(),
    };
    build_dependency_graph(&mut w).unwrap();
    let mut map = TaskMap::new();
    map.insert("build".to_string(), shell_task("build", "echo workspace"));
    map.insert("app:build".to_string(), shell_task("build", "echo app"));

    let runner = TaskRunner::new(&w);
    let plan = runner
        .run_task_on_targets("build", &targets(&["app"]), &map)
        .unwrap();
    assert_eq!(plan.len(), 1);
    assert_eq!(shell_of(&plan[0]), "echo app");
}

#[test]
fn unknown_base_task_fails_with_exact_message() {
    let mut w = Workspace {
        root: "/ws".to_string(),
        projects: vec![],
        inferred_projects: vec![],
        dep_graph: None,
        dependency_cycles: Vec::new(),
    };
    build_dependency_graph(&mut w).unwrap();
    let map = TaskMap::new();
    let runner = TaskRunner::new(&w);
    let err = runner
        .run_task_on_targets("build", &targets(&[]), &map)
        .unwrap_err();
    assert_eq!(err.message(), "Task 'build' not found");
}

#[test]
fn env_pairs_number_each_target() {
    let pairs = target_env_pairs(&targets(&["leaf", "mid"]));
    assert_eq!(pairs.len(), 2);
    assert_eq!(pairs[0].0, "MARTY_TARGET_0");
    assert_eq!(pairs[0].1, "leaf");
    assert_eq!(pairs[1].0, "MARTY_TARGET_1");
    assert_eq!(pairs[1].1, "mid");
}

#[test]
fn task_map_lookup_takes_the_latest_binding() {
    let mut map = TaskMap::new();
    map.insert("build".to_string(), shell_task("build", "echo old"));
    map.insert("build".to_string(), shell_task("build", "echo new"));
    let got = map.get("build").unwrap();
    match &got.command {
        Some(Command::Single(c)) => assert_eq!(c, "echo new"),
        _ => panic!("expected a single command"),
    }
    assert!(map.get("missing").is_none());
}

#[test]
fn planning_the_same_run_twice_gives_identical_spawns() {
    let mut map = TaskMap::new();
    map.insert("build".to_string(), shell_task("build", "echo hi"));
    let cfg = shell_task("build", "echo hi");
    let first = plan_task(&map, &cfg, &targets(&["a", "b"]), 1).unwrap();
    let second = plan_task(&map, &cfg, &targets(&["a", "b"]), 1).unwrap();
    assert_eq!(first.len(), second.len());
    for (x, y) in first.iter().zip(second.iter()) {
        assert_eq!(x.targets, y.targets);
        assert_eq!(shell_of(x), shell_of(y));
    }
}

#[test]
fn tasks_with_both_script_and_command_are_rejected() {
    let map = TaskMap::new();
    let cfg = TaskConfig {
        name: "mixed".to_string(),
        description: None,
        script: Some("run.sh".to_string()),
        command: Some(Command::Single("echo".to_string())),
        dependencies: None,
        override_targets: None,
    };
    let err = plan_task(&map, &cfg, &targets(&["a"]), 1).unwrap_err();
    assert_eq!(err.message(), "Task 'mixed' defines both a script and a command");
}
