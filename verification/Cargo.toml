[package]
name = "cargo-minimal-versions"
version = "0.1.0"
edition = "2021"
publish = false

[dependencies]
anyhow = "*"
atty = "*"
ctrlc = "*"
lexopt = "*"
serde_json = "*"
termcolor = "*"

[dev-dependencies]
semver = "*"
