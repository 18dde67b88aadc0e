use marty_core::protocol::{InferredProject, Project};
use marty_core::workspace::{
    build_dependency_graph, get_recursive_dependencies, group_by_dependency_levels, Workspace,
};

fn project(name: &str) -> Project {
    Project {
        name: name.to_string(),
        project_dir: format!("/ws/{}", name),
        file_path: Some(format!("/ws/{}/marty.yml", name)),
        dependencies: Vec::new(),
        config: None,
    }
}

fn inferred(name: &str, deps: &[&str]) -> InferredProject {
    InferredProject {
        name: name.to_string(),
        project_dir: format!("/ws/{}", name),
        discovered_by: "cargo".to_string(),
        workspace_dependencies: deps.iter().map(|d| d.to_string()).collect(),
    }
}

fn workspace(projects: Vec<Project>, inferred_projects: Vec<InferredProject>) -> Workspace {
    Workspace {
        root: "/ws".to_string(),
        projects,
        inferred_projects,
        dep_graph: None,
        dependency_cycles: Vec::new(),
    }
}

#[test]
fn cycle_detection_reports_sorted_cycle() {
    let mut w = workspace(
        vec![project("a"), project("b")],
        vec![inferred("a", &["b"]), inferred("b", &["a"])],
    );
    build_dependency_graph(&mut w).expect("graph should build even with cycles");
    assert_eq!(w.dependency_cycles.len(), 1);
    assert_eq!(w.dependency_cycles[0], vec!["a".to_string(), "b".to_string()]);

    let err = get_recursive_dependencies(&w, &vec!["a".to_string()])
        .expect_err("cycles should prevent dependency resolution");
    assert!(err.contains("Circular dependency detected"));
    assert!(err.contains("a -> b -> a"));
}

#[test]
fn self_loop_is_a_singleton_cycle() {
    let mut w = workspace(vec![project("a")], vec![inferred("a", &["a"])]);
    build_dependency_graph(&mut w).unwrap();
    assert_eq!(w.dependency_cycles, vec![vec!["a".to_string()]]);
}

#[test]
fn missing_dependency_fails_with_exact_message() {
    let mut w = workspace(vec![project("a")], vec![inferred("a", &["zz"])]);
    let err = build_dependency_graph(&mut w).unwrap_err();
    assert_eq!(err, "Project 'a' depends on 'zz' which was not found");
}

#[test]
fn duplicate_project_names_are_rejected() {
    let mut w = workspace(vec![project("a"), project("a")], vec![]);
    let err = build_dependency_graph(&mut w).unwrap_err();
    assert_eq!(err, "Duplicate project name 'a'");
}

#[test]
fn recursive_dependencies_come_leaves_first() {
    let mut w = workspace(
        vec![project("root"), project("mid"), project("leaf")],
        vec![
            inferred("root", &["mid"]),
            inferred("mid", &["leaf"]),
            inferred("leaf", &[]),
        ],
    );
    build_dependency_graph(&mut w).unwrap();
    let order = get_recursive_dependencies(&w, &vec!["root".to_string()]).unwrap();
    assert_eq!(
        order,
        vec!["leaf".to_string(), "mid".to_string(), "root".to_string()]
    );
}

#[test]
fn recursive_dependencies_cover_only_the_reachable_set() {
    let mut w = workspace(
        vec![project("a"), project("b"), project("c")],
        vec![inferred("a", &["b"]), inferred("b", &[]), inferred("c", &[])],
    );
    build_dependency_graph(&mut w).unwrap();
    let order = get_recursive_dependencies(&w, &vec!["a".to_string()]).unwrap();
    assert_eq!(order, vec!["b".to_string(), "a".to_string()]);
}

#[test]
fn unknown_target_fails_with_exact_message() {
    let mut w = workspace(vec![project("a")], vec![inferred("a", &[])]);
    build_dependency_graph(&mut w).unwrap();
    let err = get_recursive_dependencies(&w, &vec!["nope".to_string()]).unwrap_err();
    assert_eq!(err, "Target project 'nope' not found in workspace");
}

#[test]
fn graph_queries_need_a_graph() {
    let w = workspace(vec![project("a")], vec![inferred("a", &[])]);
    let err = get_recursive_dependencies(&w, &vec!["a".to_string()]).unwrap_err();
    assert_eq!(
        err,
        "Dependency graph not built. Call build_dependency_graph first."
    );
}

#[test]
fn levels_put_every_dependency_strictly_earlier() {
    // a -> b, a -> c, b -> c: c alone first, then b, then a
    let mut w = workspace(
        vec![project("a"), project("b"), project("c")],
        vec![
            inferred("a", &["b", "c"]),
            inferred("b", &["c"]),
            inferred("c", &[]),
        ],
    );
    build_dependency_graph(&mut w).unwrap();
    let names = vec!["a".to_string(), "b".to_string(), "c".to_string()];
    let levels = group_by_dependency_levels(&w, &names).unwrap();
    assert_eq!(
        levels,
        vec![
            vec!["c".to_string()],
            vec!["b".to_string()],
            vec!["a".to_string()],
        ]
    );
}

#[test]
fn independent_projects_share_a_level() {
    let mut w = workspace(
        vec![project("x"), project("y")],
        vec![inferred("x", &[]), inferred("y", &[])],
    );
    build_dependency_graph(&mut w).unwrap();
    let names = vec!["x".to_string(), "y".to_string()];
    let levels = group_by_dependency_levels(&w, &names).unwrap();
    assert_eq!(levels, vec![vec!["x".to_string(), "y".to_string()]]);
}

#[test]
fn empty_workspace_has_no_graph() {
    let mut w = workspace(vec![], vec![]);
    build_dependency_graph(&mut w).unwrap();
    assert!(w.dep_graph.is_none());
    assert!(w.dependency_cycles.is_empty());
    let err = get_recursive_dependencies(&w, &vec![]).unwrap_err();
    assert_eq!(
        err,
        "Dependency graph not built. Call build_dependency_graph first."
    );
}

