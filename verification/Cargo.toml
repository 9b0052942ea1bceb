[package]
name = "trail"
version = "0.1.0"
edition = "2021"
publish = false

[dependencies]
anyhow = "1"
duct = "0.13"
env_logger = "0.7"
log = "0.4"
rayon = "1"
serde = { version = "1", features = ["derive"] }
skim = "0.8"
structopt = "0.3"
