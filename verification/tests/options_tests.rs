use marty_core::json::JsonValue;
use marty_core::platform::PlatformInfo;
use marty_core::plugin_cache::PluginCache;
use marty_core::protocol::{PluginKey, PluginType};

fn cache() -> PluginCache {
    PluginCache::new("/tmp", PlatformInfo::from_os_arch("linux", "x86_64"))
}

fn schema(additional: bool) -> JsonValue {
    let includes = JsonValue::Object(vec![(
        "type".to_string(),
        JsonValue::Text("array".to_string()),
    )]);
    let verbose = JsonValue::Object(vec![(
        "type".to_string(),
        JsonValue::Text("boolean".to_string()),
    )]);
    JsonValue::Object(vec![
        ("type".to_string(), JsonValue::Text("object".to_string())),
        (
            "properties".to_string(),
            JsonValue::Object(vec![
                ("includes".to_string(), includes),
                ("verbose".to_string(), verbose),
            ]),
        ),
        ("additionalProperties".to_string(), JsonValue::Bool(additional)),
    ])
}

#[test]
fn unknown_option_is_rejected_with_the_valid_keys() {
    let c = cache();
    let options = JsonValue::Object(vec![(
        "colour".to_string(),
        JsonValue::Bool(true),
    )]);
    let err = c
        .validate_options_against_schema(&options, &schema(false), "cargo")
        .unwrap_err();
    assert_eq!(
        err.message(),
        "Plugin 'cargo' does not support option 'colour'. Valid options are: includes, verbose"
    );
}

#[test]
fn type_mismatch_names_expected_and_actual() {
    let c = cache();
    let options = JsonValue::Object(vec![(
        "verbose".to_string(),
        JsonValue::Text("yes".to_string()),
    )]);
    let err = c
        .validate_options_against_schema(&options, &schema(false), "cargo")
        .unwrap_err();
    assert_eq!(
        err.message(),
        "Plugin 'cargo' option 'verbose' expects type 'boolean', got 'string'"
    );
}

#[test]
fn matching_options_pass() {
    let c = cache();
    let options = JsonValue::Object(vec![
        ("verbose".to_string(), JsonValue::Bool(true)),
        (
            "includes".to_string(),
            JsonValue::Array(vec![JsonValue::Text("**/*.rs".to_string())]),
        ),
    ]);
    assert!(c
        .validate_options_against_schema(&options, &schema(false), "cargo")
        .is_ok());
}

#[test]
fn schemas_without_properties_accept_everything() {
    let c = cache();
    let options = JsonValue::Object(vec![("anything".to_string(), JsonValue::Null)]);
    let bare = JsonValue::Object(vec![(
        "type".to_string(),
        JsonValue::Text("object".to_string()),
    )]);
    assert!(c.validate_options_against_schema(&options, &bare, "p").is_ok());
    assert!(c
        .validate_options_against_schema(&options, &JsonValue::Null, "p")
        .is_ok());
}

#[test]
fn non_object_options_are_rejected() {
    let c = cache();
    let err = c
        .validate_options_against_schema(&JsonValue::Bool(true), &schema(false), "pnpm")
        .unwrap_err();
    assert_eq!(err.message(), "Plugin 'pnpm' options must be an object");
}

#[test]
fn validation_gives_the_same_verdict_twice() {
    let c = cache();
    let options = JsonValue::Object(vec![(
        "verbose".to_string(),
        JsonValue::Number("3".to_string()),
    )]);
    let first = c
        .validate_options_against_schema(&options, &schema(false), "x")
        .unwrap_err();
    let second = c
        .validate_options_against_schema(&options, &schema(false), "x")
        .unwrap_err();
    assert_eq!(first.message(), second.message());
}

#[test]
fn plugin_keys_reject_whitespace() {
    let key = PluginKey::new("cargo".to_string()).unwrap();
    assert_eq!(key.as_str(), "cargo");
    assert!(PluginKey::new("next-js".to_string()).is_ok());

    let err = PluginKey::new("my plugin".to_string()).unwrap_err();
    assert_eq!(err, "Plugin key 'my plugin' contains whitespace characters");
    assert!(PluginKey::new("my\tplugin".to_string()).is_err());
}

#[test]
fn plugin_types_describe_themselves() {
    assert!(PluginType::Primary.discovers_projects());
    assert!(!PluginType::Supplemental.discovers_projects());
    assert!(!PluginType::Hook.discovers_projects());
    assert_eq!(
        PluginType::Primary.description(),
        "Discovers projects and workspace dependencies"
    );
    assert_eq!(
        PluginType::Supplemental.description(),
        "Enhances existing projects without discovering new ones"
    );
    assert_eq!(
        PluginType::Hook.description(),
        "Executes actions at lifecycle hooks"
    );
}
