[package]
name = "rbx-inject"
version = "0.1.0"
edition = "2021"
publish = false

[dependencies]
anyhow = "=1.0.104"
clap = { version = "=4.6.7", features = ["derive"] }
lz4_flex = "=0.13.1"
mlua = { version = "=0.10.5", features = ["luau", "vendored"] }
rbx_binary = "=3.0.1"
rbx_dom_weak = "=4.2.0"
rbx_reflection = "=7.0.0"
rbx_reflection_database = "=3.0.1"
serde = { version = "=1.0.229", features = ["derive"] }
serde_json = "=1.0.154"
toml = "=1.1.8"
zstd = "=0.13.4"
