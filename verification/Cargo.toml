[package]
name = "rusty_tags"
version = "0.1.0"
edition = "2021"
publish = false

[dependencies]
semver = "*"
clap = "*"
serde = "*"
serde_derive = "*"
serde_json = "*"
toml = "*"
tempfile = "*"
num_cpus = "*"
scoped_threadpool = "*"
