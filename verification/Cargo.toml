[package]
name = "ghmd"
version = "0.1.0"
edition = "2021"
publish = false

[dependencies]
anyhow = "*"
clap = "*"
dirs = "*"
fs_extra = "*"
glob = "*"
log = "*"
pretty_env_logger = "*"
serde = "*"
serde_derive = "*"
thiserror = "*"
toml = "*"
