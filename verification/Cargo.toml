[package]
name = "marty_core"
version = "0.1.0"
edition = "2021"
publish = false

[dependencies]
sha2 = "*"
globset = "*"
pathdiff = "*"
serde = { version = "*", features = ["derive"] }
serde_json = "*"
serde_yaml = "*"
toml = "*"
anyhow = "*"
thiserror = "*"
clap = { version = "*", features = ["derive"] }
colored = "*"
reqwest = { version = "*", default-features = false }
tokio = { version = "*", features = ["macros", "rt-multi-thread", "fs", "io-util"] }
libloading = "*"
tempfile = "*"
