//! Platform detection data for plugin resolution.

use vstd::prelude::*;
use vstd::pervasive::unreached;
use crate::text::str_eq;

verus! {

broadcast use vstd::string::group_string_axioms;

/// Target triple and dynamic-library extension of a supported platform.
#[derive(Debug, Clone, Copy)]
pub struct PlatformInfo {
    /// Rust target triple, e.g. `x86_64-unknown-linux-gnu`.
    pub target: &'static str,
    /// Dynamic library file extension: `so`, `dylib` or `dll`.
    pub extension: &'static str,
}

/// The six supported operating-system and architecture pairs.
pub open spec fn supported_platform(os: Seq<char>, arch: Seq<char>) -> bool {
    &&& (os == "linux"@ || os == "macos"@ || os == "windows"@)
    &&& (arch == "x86_64"@ || arch == "aarch64"@)
}

/// The target triple for a supported pair.
pub open spec fn triple_of(os: Seq<char>, arch: Seq<char>) -> Seq<char> {
    if os == "linux"@ {
        if arch == "x86_64"@ {
            "x86_64-unknown-linux-gnu"@
        } else {
            "aarch64-unknown-linux-gnu"@
        }
    } else if os == "macos"@ {
        if arch == "x86_64"@ {
            "x86_64-apple-darwin"@
        } else {
            "aarch64-apple-darwin"@
        }
    } else {
        if arch == "x86_64"@ {
            "x86_64-pc-windows-msvc"@
        } else {
            "aarch64-pc-windows-msvc"@
        }
    }
}

/// The dynamic-library extension for an operating system.
pub open spec fn extension_of(os: Seq<char>) -> Seq<char> {
    if os == "windows"@ {
        "dll"@
    } else if os == "macos"@ {
        "dylib"@
    } else {
        "so"@
    }
}

impl PlatformInfo {
    /// Map a supported operating system and architecture to its target
    /// triple and dynamic-library extension.
    ///
    /// Callers must establish that the pair is one of the six supported
    /// combinations; unsupported pairs are a fatal configuration error at
    /// the boundary.
    pub fn from_os_arch(os: &str, arch: &str) -> (r: PlatformInfo)
        requires
            supported_platform(os@, arch@),
        ensures
            r.target@ == triple_of(os@, arch@),
            r.extension@ == extension_of(os@),
    {
        proof {
            reveal_strlit("linux");
            reveal_strlit("macos");
            reveal_strlit("windows");
            assert("linux"@.len() == 5);
            assert("windows"@.len() == 7);
            assert("macos"@.len() == 5);
            assert("linux"@ != "windows"@);
            assert("macos"@ != "windows"@);
            assert("macos"@[0] == 'm' && "linux"@[0] == 'l');
            assert("macos"@ != "linux"@);
        }
        let x86 = str_eq(arch, "x86_64");
        if str_eq(os, "linux") {
            if x86 {
                PlatformInfo { target: "x86_64-unknown-linux-gnu", extension: "so" }
            } else {
                PlatformInfo { target: "aarch64-unknown-linux-gnu", extension: "so" }
            }
        } else if str_eq(os, "macos") {
            if x86 {
                PlatformInfo { target: "x86_64-apple-darwin", extension: "dylib" }
            } else {
                PlatformInfo { target: "aarch64-apple-darwin", extension: "dylib" }
            }
        } else if str_eq(os, "windows") {
            if x86 {
                PlatformInfo { target: "x86_64-pc-windows-msvc", extension: "dll" }
            } else {
                PlatformInfo { target: "aarch64-pc-windows-msvc", extension: "dll" }
            }
        } else {
            unreached()
        }
    }

    /// Whether an operating-system and architecture pair is supported.
    pub fn is_supported(os: &str, arch: &str) -> (r: bool)
        ensures
            r == supported_platform(os@, arch@),
    {
        let os_ok = str_eq(os, "linux") || str_eq(os, "macos") || str_eq(os, "windows");
        let arch_ok = str_eq(arch, "x86_64") || str_eq(arch, "aarch64");
        os_ok && arch_ok
    }
}

} // verus!
