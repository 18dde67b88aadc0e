use marty_core::platform::PlatformInfo;

#[test]
fn test_linux_x86_64() {
    let platform = PlatformInfo::from_os_arch("linux", "x86_64");
    assert_eq!(platform.target, "x86_64-unknown-linux-gnu");
    assert_eq!(platform.extension, "so");
}

#[test]
fn test_macos_aarch64() {
    let platform = PlatformInfo::from_os_arch("macos", "aarch64");
    assert_eq!(platform.target, "aarch64-apple-darwin");
    assert_eq!(platform.extension, "dylib");
}

#[test]
fn test_windows_x86_64() {
    let platform = PlatformInfo::from_os_arch("windows", "x86_64");
    assert_eq!(platform.target, "x86_64-pc-windows-msvc");
    assert_eq!(platform.extension, "dll");
}

#[test]
fn test_linux_aarch64() {
    let platform = PlatformInfo::from_os_arch("linux", "aarch64");
    assert_eq!(platform.target, "aarch64-unknown-linux-gnu");
    assert_eq!(platform.extension, "so");
}

#[test]
fn unsupported_pairs_are_rejected() {
    assert!(!PlatformInfo::is_supported("unknown", "unknown"));
    assert!(!PlatformInfo::is_supported("linux", "riscv64"));
    assert!(PlatformInfo::is_supported("macos", "x86_64"));
}
