use marty_core::configs::{merge_task_configs, Command, ProjectConfig, TaskConfig, TasksFileConfig};
use marty_core::protocol::{InferredProject, Project};
use marty_core::task_execution::{
    is_project_compatible_with_task, resolve_task_execution_plan, task_exists,
};
use marty_core::workspace::{build_dependency_graph, Workspace};
use marty_core::workspace_manager::parse_target;

fn task(name: &str) -> TaskConfig {
    TaskConfig {
        name: name.to_string(),
        description: None,
        script: None,
        command: Some(Command::Single("echo".to_string())),
        dependencies: None,
        override_targets: None,
    }
}

fn tasks_file(tasks: Vec<TaskConfig>, tags: Option<Vec<String>>) -> TasksFileConfig {
    TasksFileConfig { name: None, description: None, tasks, tags, targets: None }
}

fn tagged_project(name: &str, tags: &[&str]) -> Project {
    Project {
        name: name.to_string(),
        project_dir: format!("/ws/{}", name),
        file_path: Some(format!("/ws/{}/marty.yml", name)),
        dependencies: Vec::new(),
        config: Some(ProjectConfig {
            name: Some(name.to_string()),
            description: None,
            tags: Some(tags.iter().map(|t| t.to_string()).collect()),
            dependencies: None,
            tasks: None,
        }),
    }
}

fn bare_inferred(name: &str) -> InferredProject {
    InferredProject {
        name: name.to_string(),
        project_dir: format!("/ws/{}", name),
        discovered_by: "cargo".to_string(),
        workspace_dependencies: Vec::new(),
    }
}

fn built_workspace(projects: Vec<Project>) -> Workspace {
    let inferred = projects.iter().map(|p| bare_inferred(&p.name)).collect();
    let mut w = Workspace {
        root: "/ws".to_string(),
        projects,
        inferred_projects: inferred,
        dep_graph: None,
        dependency_cycles: Vec::new(),
    };
    build_dependency_graph(&mut w).unwrap();
    w
}

#[test]
fn tag_filtering_keeps_only_matching_projects() {
    let w = built_workspace(vec![tagged_project("a", &["rust"]), tagged_project("b", &["js"])]);
    let cfg = tasks_file(vec![task("test")], Some(vec!["rust".to_string()]));

    let plan = resolve_task_execution_plan(&w, &cfg, "test", None).unwrap();
    assert_eq!(plan.task_name, "test");
    assert_eq!(plan.compatible_projects, vec!["a".to_string()]);

    let err = resolve_task_execution_plan(&w, &cfg, "test", Some("b")).unwrap_err();
    assert_eq!(
        err.message(),
        "Project 'b' is not compatible with task 'test' (tag mismatch)"
    );
}

#[test]
fn untagged_files_accept_every_project() {
    let w = built_workspace(vec![tagged_project("a", &["rust"])]);
    let cfg = tasks_file(vec![task("build")], None);
    let ok = is_project_compatible_with_task(&w, "a", &cfg).unwrap();
    assert!(ok);
}

#[test]
fn projects_without_their_own_settings_pass_the_tag_gate() {
    let mut p = tagged_project("plain", &[]);
    p.config = None;
    let w = built_workspace(vec![p]);
    let cfg = tasks_file(vec![task("build")], Some(vec!["rust".to_string()]));
    assert!(is_project_compatible_with_task(&w, "plain", &cfg).unwrap());
}

#[test]
fn projects_with_empty_tags_fail_a_tagged_gate() {
    let w = built_workspace(vec![tagged_project("a", &[])]);
    let cfg = tasks_file(vec![task("build")], Some(vec!["rust".to_string()]));
    assert!(!is_project_compatible_with_task(&w, "a", &cfg).unwrap());
}

#[test]
fn unknown_task_fails_with_exact_message() {
    let w = built_workspace(vec![]);
    let cfg = tasks_file(vec![], None);
    let err = resolve_task_execution_plan(&w, &cfg, "build", None).unwrap_err();
    assert_eq!(err.message(), "Task 'build' not found");
}

#[test]
fn unknown_filter_project_fails_with_exact_message() {
    let w = built_workspace(vec![tagged_project("a", &[])]);
    let cfg = tasks_file(vec![task("build")], None);
    let err = resolve_task_execution_plan(&w, &cfg, "build", Some("ghost")).unwrap_err();
    assert_eq!(err.message(), "Project 'ghost' not found");
}

#[test]
fn task_exists_searches_project_settings() {
    let mut p = tagged_project("a", &["rust"]);
    if let Some(c) = &mut p.config {
        c.tasks = Some(vec![task("lint")]);
    }
    let w = built_workspace(vec![p]);
    let cfg = tasks_file(vec![], None);
    assert!(task_exists(&w, &cfg, "lint", None).unwrap());
    assert!(task_exists(&w, &cfg, "lint", Some("a")).unwrap());
    assert!(!task_exists(&w, &cfg, "fmt", None).unwrap());
}

#[test]
fn parse_target_splits_at_the_first_colon() {
    let (filter, task_name) = parse_target("api:build").unwrap();
    assert_eq!(filter, Some("api".to_string()));
    assert_eq!(task_name, "build");

    let (filter2, task2) = parse_target("build").unwrap();
    assert_eq!(filter2, None);
    assert_eq!(task2, "build");

    let (filter3, task3) = parse_target("a:b:c").unwrap();
    assert_eq!(filter3, Some("a".to_string()));
    assert_eq!(task3, "b:c");
}

#[test]
fn merge_unions_tags_and_keeps_last_singletons() {
    let f1 = TasksFileConfig {
        name: Some("first".to_string()),
        description: None,
        tasks: vec![task("build")],
        tags: Some(vec!["rust".to_string(), "js".to_string()]),
        targets: None,
    };
    let f2 = TasksFileConfig {
        name: Some("second".to_string()),
        description: None,
        tasks: vec![task("test")],
        tags: Some(vec!["js".to_string(), "api".to_string()]),
        targets: Some(vec!["a".to_string()]),
    };
    let merged = merge_task_configs(vec![f1, f2]);
    assert_eq!(merged.name, Some("second".to_string()));
    assert_eq!(merged.targets, Some(vec!["a".to_string()]));
    assert_eq!(merged.tasks.len(), 2);
    assert_eq!(merged.tasks[0].name, "build");
    assert_eq!(merged.tasks[1].name, "test");
    assert_eq!(
        merged.tags,
        Some(vec!["api".to_string(), "js".to_string(), "rust".to_string()])
    );
}

#[test]
fn merge_of_untagged_files_has_no_tags() {
    let f1 = tasks_file(vec![task("build")], None);
    let merged = merge_task_configs(vec![f1]);
    assert_eq!(merged.tags, None);
}
