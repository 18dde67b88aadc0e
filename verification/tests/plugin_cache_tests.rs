use marty_core::configs::PluginConfig;
use marty_core::platform::PlatformInfo;
use marty_core::plugin_cache::{derived_name_from_url, PluginCache, PluginSource};

fn linux_cache() -> PluginCache {
    PluginCache::new("/tmp", PlatformInfo::from_os_arch("linux", "x86_64"))
}

#[test]
fn test_extract_plugin_name_from_repo() {
    let cache = linux_cache();

    // Valid repository names
    assert_eq!(
        cache
            .extract_plugin_name_from_repo("codyspate/marty-plugin-cargo")
            .unwrap(),
        "cargo"
    );
    assert_eq!(
        cache
            .extract_plugin_name_from_repo("user/marty-plugin-typescript")
            .unwrap(),
        "typescript"
    );
    assert_eq!(
        cache
            .extract_plugin_name_from_repo("org/marty-plugin-my-custom-plugin")
            .unwrap(),
        "my-custom-plugin"
    );

    // Invalid formats
    assert!(cache.extract_plugin_name_from_repo("no-slash").is_err());
    assert!(cache
        .extract_plugin_name_from_repo("user/cargo-plugin")
        .is_err());
    assert!(cache
        .extract_plugin_name_from_repo("user/marty-plugin-")
        .is_err());
}

#[test]
fn test_resolve_github_plugin_url_linux() {
    let cache = linux_cache();

    let url = cache
        .resolve_github_plugin_url("codyspate/marty-plugin-cargo", "0.2.0")
        .unwrap();

    // URL should contain the repository, version, and platform info
    assert!(url.contains("github.com/codyspate/marty-plugin-cargo"));
    assert!(url.contains("v0.2.0"));
    assert!(url.contains("marty-plugin-cargo-v0.2.0"));
    assert!(url.contains("x86_64-unknown-linux-gnu"));
    assert!(url.ends_with(".so"));
}

#[test]
fn test_resolve_github_plugin_url_format() {
    let cache = linux_cache();

    let url = cache
        .resolve_github_plugin_url("user/marty-plugin-test", "1.0.0")
        .unwrap();

    // Verify URL structure
    assert!(
        url.starts_with("https://github.com/user/marty-plugin-test/releases/download/v1.0.0/")
    );
    assert!(url.contains("marty-plugin-test-v1.0.0-"));
}

#[test]
fn test_resolve_github_plugin_url_monorepo() {
    let cache = linux_cache();

    let url = cache
        .resolve_github_plugin_url_monorepo("codyspate/marty", "typescript", "0.2.2")
        .unwrap();

    // URL should contain the repository, plugin name, and version
    assert!(url.contains("github.com/codyspate/marty"));
    assert!(url.contains("marty-plugin-typescript-v0.2.2"));

    // Tag should carry the plugin name and version
    assert!(url.contains("/releases/download/marty-plugin-typescript-v0.2.2/"));
    assert!(url.contains("x86_64-unknown-linux-gnu"));
    assert!(url.ends_with(".so"));
}

#[test]
fn cache_filename_uses_first_eight_digest_chars() {
    let cache = linux_cache();
    let url = "https://example.com/p.so";
    let bytes: Vec<u8> = <sha2::Sha256 as sha2::Digest>::digest(url.as_bytes()).to_vec();
    let digest: String = bytes.iter().map(|b| format!("{:02x}", b)).collect();
    let expected = format!("p_{}.so", &digest[..8]);
    assert_eq!(cache.cache_filename("p", url), expected);
    // resolving the same URL twice lands on the same file
    assert_eq!(cache.cache_filename("p", url), expected);
}

#[test]
fn derived_name_strips_library_extensions() {
    assert_eq!(derived_name_from_url("https://example.com/p.so"), "p");
    assert_eq!(derived_name_from_url("https://example.com/dir/libx.dylib"), "libx");
    assert_eq!(derived_name_from_url("https://example.com/win.dll"), "win");
    assert_eq!(derived_name_from_url("plain-name"), "plain-name");
}

fn empty_config() -> PluginConfig {
    PluginConfig {
        repository: None,
        version: None,
        plugin: None,
        url: None,
        path: None,
        enabled: None,
        options: None,
    }
}

#[test]
fn resolve_source_prefers_repository() {
    let cache = linux_cache();
    let mut cfg = empty_config();
    cfg.repository = Some("owner/marty-plugin-cargo".to_string());
    cfg.version = Some("0.2.0".to_string());
    cfg.url = Some("https://elsewhere.example/x.so".to_string());
    match cache.resolve_plugin_source(&cfg).unwrap() {
        PluginSource::Download { name, url, cache_file } => {
            assert_eq!(name, "cargo");
            assert!(url.contains("owner/marty-plugin-cargo"));
            assert!(cache_file.starts_with("cargo_"));
            assert!(cache_file.ends_with(".so"));
        }
        _ => panic!("expected a download source"),
    }
}

#[test]
fn resolve_source_monorepo_uses_plugin_name() {
    let cache = linux_cache();
    let mut cfg = empty_config();
    cfg.repository = Some("owner/marty".to_string());
    cfg.version = Some("1.2.3".to_string());
    cfg.plugin = Some("pnpm".to_string());
    match cache.resolve_plugin_source(&cfg).unwrap() {
        PluginSource::Download { name, url, .. } => {
            assert_eq!(name, "pnpm");
            assert!(url.contains("/releases/download/marty-plugin-pnpm-v1.2.3/"));
        }
        _ => panic!("expected a download source"),
    }
}

#[test]
fn resolve_source_direct_url() {
    let cache = linux_cache();
    let mut cfg = empty_config();
    cfg.url = Some("https://example.com/p.so".to_string());
    match cache.resolve_plugin_source(&cfg).unwrap() {
        PluginSource::Download { name, url, cache_file } => {
            assert_eq!(name, "p");
            assert_eq!(url, "https://example.com/p.so");
            let bytes: Vec<u8> =
                <sha2::Sha256 as sha2::Digest>::digest(url.as_bytes()).to_vec();
            let digest: String = bytes.iter().map(|b| format!("{:02x}", b)).collect();
            assert_eq!(cache_file, format!("p_{}.so", &digest[..8]));
        }
        _ => panic!("expected a download source"),
    }
}

#[test]
fn resolve_source_local_and_builtin() {
    let cache = linux_cache();
    let mut cfg = empty_config();
    cfg.path = Some("/opt/plugins/custom.so".to_string());
    match cache.resolve_plugin_source(&cfg).unwrap() {
        PluginSource::Local { path } => assert_eq!(path, "/opt/plugins/custom.so"),
        _ => panic!("expected a local source"),
    }

    let mut cfg2 = empty_config();
    cfg2.path = Some("builtin".to_string());
    match cache.resolve_plugin_source(&cfg2).unwrap() {
        PluginSource::Builtin { name, cache_candidate, fallback } => {
            assert_eq!(name, "builtin");
            assert_eq!(
                cache_candidate,
                "/tmp/.marty/cache/plugins/marty-plugin-builtin.so"
            );
            assert_eq!(fallback, "/tmp/.marty/cache/plugins/../plugins/builtin.so");
        }
        _ => panic!("expected the builtin source"),
    }
}

#[test]
fn resolve_source_without_any_source_fails() {
    let cache = linux_cache();
    let cfg = empty_config();
    let err = cache.resolve_plugin_source(&cfg).unwrap_err();
    assert_eq!(
        err.message(),
        "Plugin configuration must specify either 'repository' + 'version', 'url', or 'path'"
    );
}

#[test]
fn extract_error_messages_are_exact() {
    let cache = linux_cache();
    let err = cache
        .extract_plugin_name_from_repo("user/cargo-plugin")
        .unwrap_err();
    assert_eq!(
        err.message(),
        "Repository name must start with 'marty-plugin-': 'cargo-plugin'. Example: 'owner/marty-plugin-cargo'"
    );
    let err2 = cache
        .extract_plugin_name_from_repo("user/marty-plugin-")
        .unwrap_err();
    assert_eq!(
        err2.message(),
        "Plugin name cannot be empty. Repository format should be 'owner/marty-plugin-{name}'"
    );
}
