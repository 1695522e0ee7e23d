[package]
name = "extractor"
version = "0.1.0"
edition = "2021"
publish = false

[dependencies]
anyhow = "=1.0.104"
askalono = "0.5"
console = "=0.15.11"
convert_case = "=0.6.0"
derive_more = "=0.99.20"
env_logger = "=0.10.2"
full_moon = "=0.18.1"
futures = "=0.3.34"
lazy_static = "=1.5.1"
log = "=0.4.34"
petgraph = "=0.6.5"
phf = { version = "=0.11.3", features = ["macros"] }
rbx_dom_weak = "=2.9.0"
reqwest = { version = "=0.11.27", default-features = false, features = ["stream"] }
roblox_install = "=1.2.0"
roblox_version_archive = "=1.0.4"
semver = { version = "=1.0.28", features = ["serde"] }
serde = { version = "=1.0.229", features = ["derive"] }
serde_json = "=1.0.154"
tera = "=1.20.1"
tokio = { version = "=1.54.1", features = ["macros", "rt-multi-thread"] }
toml = "=0.5.11"
walkdir = "=2.5.0"
zip = "=0.6.6"
