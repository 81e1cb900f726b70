[package]
name = "pkgbuild_updater"
version = "0.1.0"
edition = "2021"
publish = false

[dependencies]
semver = "=1.0.28"
octocrab = "=0.47.1"
tokio = { version = "=1.53.2", features = ["fs", "macros", "rt"] }
tracing = "=0.1.44"
tracing-subscriber = "=0.3.23"
