[package]
name = "crazy_carding"
version = "0.1.0"
edition = "2021"
publish = false

[dependencies]
ab_glyph = "0.2"
anyhow = "1"
chrono = { version = "0.4", features = ["serde"] }
image = "0.25"
imageproc = "0.25"
log = "0.4"
rand = "0.8"
reqwest = { version = "0.12", features = ["json"] }
resvg = "*"
serde = { version = "1", features = ["derive"] }
serde_json = "1"
simple_logger = "5"
tap = "1"
tokio = { version = "1", features = ["macros", "rt-multi-thread", "sync", "time"] }
toml = "0.8"
viuer = "*"
