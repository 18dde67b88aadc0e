use marty_core::cargo_plugin::{process_manifest, CargoDependency, CargoManifest, CargoPlugin};
use marty_core::json::JsonValue;
use marty_core::pnpm_plugin::{process_package_json, PackageManifest, PnpmPlugin};
use marty_core::protocol::{InferredProject, Project};
use marty_core::scan::{effective_excludes, effective_includes, scan_action, ScanAction};
use marty_core::typescript_plugin::{
    compute_project_references, default_reference_path_style, process_tsconfig,
    should_auto_update_references, typescript_config_from_options, TsConfigData, TypeScriptPlugin,
};

#[test]
fn extracts_path_dependencies_and_package_name() {
    let manifest = CargoManifest {
        package_name: Some("app-crate".to_string()),
        dependencies: vec![
            CargoDependency { name: "lib-crate".to_string(), has_path: true },
            CargoDependency { name: "serde".to_string(), has_path: false },
        ],
    };
    let inferred = process_manifest("/ws/app/Cargo.toml", &manifest)
        .expect("project should be inferred");
    assert_eq!(inferred.name, "app-crate");
    assert_eq!(inferred.project_dir, "/ws/app");
    assert_eq!(inferred.discovered_by, "cargo");
    assert_eq!(inferred.workspace_dependencies, vec!["lib-crate".to_string()]);
}

#[test]
fn cargo_name_falls_back_to_the_directory() {
    let manifest = CargoManifest { package_name: None, dependencies: vec![] };
    let inferred = process_manifest("/ws/tools/Cargo.toml", &manifest).unwrap();
    assert_eq!(inferred.name, "tools");
}

#[test]
fn cargo_rejects_other_file_names() {
    let manifest = CargoManifest { package_name: Some("x".to_string()), dependencies: vec![] };
    assert!(process_manifest("/ws/app/Cargo.lock", &manifest).is_none());
}

#[test]
fn extracts_workspace_dependencies() {
    let manifest = PackageManifest {
        name: Some("web-app".to_string()),
        dependency_specs: vec![
            ("shared".to_string(), "workspace:^".to_string()),
            ("react".to_string(), "18.2.0".to_string()),
            ("builder".to_string(), "file:../builder".to_string()),
        ],
    };
    let message = process_package_json("/ws/web-app/package.json", &manifest)
        .expect("should produce inferred project");
    assert_eq!(message.name, "web-app");
    assert_eq!(message.discovered_by, "pnpm");
    assert_eq!(message.project_dir, "/ws/web-app");
    assert_eq!(message.workspace_dependencies, vec!["builder", "shared"]);
}

#[test]
fn detects_typescript_project() {
    let config = TsConfigData { reference_paths: vec![] };
    let message = process_tsconfig("/ws/api/tsconfig.json", Some(&config))
        .expect("should return inferred project");
    assert_eq!(message.name, "api");
    assert_eq!(message.discovered_by, "typescript");
    assert_eq!(message.project_dir, "/ws/api");
    assert_eq!(message.workspace_dependencies, Vec::<String>::new());
    assert!(process_tsconfig("/ws/api/tsconfig.json", None).is_none());
    assert!(process_tsconfig("/ws/api/package.json", Some(&config)).is_none());
}

#[test]
fn updates_project_references() {
    let shared = InferredProject {
        name: "shared".to_string(),
        project_dir: "/ws/shared".to_string(),
        discovered_by: "typescript".to_string(),
        workspace_dependencies: vec![],
    };
    let current = TsConfigData { reference_paths: vec![] };
    let new_refs = compute_project_references(
        &current.reference_paths,
        &vec!["shared".to_string()],
        &Vec::<Project>::new(),
        &vec![shared.clone()],
        "/ws/api",
        false,
    )
    .expect("references should change");
    assert_eq!(new_refs, vec!["../shared".to_string()]);

    // already up to date: nothing to write
    let unchanged = compute_project_references(
        &new_refs,
        &vec!["shared".to_string()],
        &Vec::<Project>::new(),
        &vec![shared],
        "/ws/api",
        false,
    );
    assert!(unchanged.is_none());
}

#[test]
fn updates_project_references_with_tsconfig_style() {
    let shared = InferredProject {
        name: "shared".to_string(),
        project_dir: "/ws/shared".to_string(),
        discovered_by: "typescript".to_string(),
        workspace_dependencies: vec![],
    };
    let new_refs = compute_project_references(
        &vec![],
        &vec!["shared".to_string()],
        &Vec::<Project>::new(),
        &vec![shared],
        "/ws/api",
        true,
    )
    .unwrap();
    assert_eq!(new_refs, vec!["../shared/tsconfig.json".to_string()]);
}

#[test]
fn should_auto_update_references_returns_correct_value() {
    let enabled = JsonValue::Object(vec![(
        "auto_project_references".to_string(),
        JsonValue::Bool(true),
    )]);
    assert!(should_auto_update_references(Some(&enabled)));

    let disabled = JsonValue::Object(vec![(
        "auto_project_references".to_string(),
        JsonValue::Bool(false),
    )]);
    assert!(!should_auto_update_references(Some(&disabled)));

    assert!(!should_auto_update_references(None));

    let unrelated = JsonValue::Object(vec![(
        "invalid".to_string(),
        JsonValue::Text("config".to_string()),
    )]);
    assert!(!should_auto_update_references(Some(&unrelated)));
}

#[test]
fn default_style_is_relative() {
    assert_eq!(default_reference_path_style(), "relative");
}

#[test]
fn plugin_metadata_is_stable() {
    assert_eq!(CargoPlugin::new().key(), "cargo");
    assert_eq!(PnpmPlugin::new().name(), "PNPM Plugin");
    assert_eq!(TypeScriptPlugin::new().key(), "typescript");
    assert!(CargoPlugin::new().plugin_type().discovers_projects());
    assert!(!TypeScriptPlugin::new().plugin_type().discovers_projects());
}

#[test]
fn workspace_includes_win_over_plugin_includes() {
    let ws = vec!["crates/**".to_string()];
    let plugin = vec!["**/Cargo.toml".to_string()];
    assert_eq!(effective_includes(&ws, &plugin), ws);
    assert_eq!(effective_includes(&vec![], &plugin), plugin);
    assert_eq!(effective_includes(&vec![], &vec![]), vec!["**".to_string()]);
}

#[test]
fn built_in_excludes_always_apply() {
    let ws = vec!["**/dist/**".to_string()];
    let plugin = vec!["**/.next/**".to_string()];
    let all = effective_excludes(&ws, &plugin);
    assert_eq!(
        all,
        vec![
            "**/.git/**".to_string(),
            "**/target/**".to_string(),
            "**/node_modules/**".to_string(),
            "**/dist/**".to_string(),
            "**/.next/**".to_string(),
        ]
    );
}

#[test]
fn scan_actions_follow_include_and_exclude_globs() {
    let includes = vec!["**/Cargo.toml".to_string()];
    let excludes = vec!["**/target/**".to_string()];
    assert_eq!(
        scan_action(&includes, &excludes, "app/Cargo.toml", true),
        ScanAction::Inspect
    );
    assert_eq!(
        scan_action(&includes, &excludes, "app/readme.md", true),
        ScanAction::Skip
    );
    assert_eq!(scan_action(&includes, &excludes, "app", false), ScanAction::Descend);
    assert_eq!(
        scan_action(&includes, &excludes, "target/debug", false),
        ScanAction::Skip
    );
}

#[test]
fn configuration_parsing() {
    let options = JsonValue::Object(vec![
        ("auto_project_references".to_string(), JsonValue::Bool(true)),
        (
            "reference_path_style".to_string(),
            JsonValue::Text("tsconfig".to_string()),
        ),
        (
            "includes".to_string(),
            JsonValue::Array(vec![JsonValue::Text("**/*.ts".to_string())]),
        ),
        (
            "excludes".to_string(),
            JsonValue::Array(vec![JsonValue::Text("**/*.test.ts".to_string())]),
        ),
    ]);
    let config = typescript_config_from_options(Some(&options)).unwrap();
    assert!(config.auto_project_references);
    assert_eq!(config.reference_path_style, "tsconfig");
    assert_eq!(config.includes, vec!["**/*.ts".to_string()]);
    assert_eq!(config.excludes, vec!["**/*.test.ts".to_string()]);
}
