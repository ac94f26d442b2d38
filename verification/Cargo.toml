[package]
name = "rjs"
version = "0.1.0"
edition = "2021"
publish = false

[dependencies]
anyhow = "*"
atty = "*"
clap = { version = "*", features = ["derive"] }
console = "*"
crossbeam = "*"
dialoguer = "*"
dirs = "*"
env_logger = "*"
flate2 = "*"
futures = "*"
hex = "*"
indicatif = "*"
log = "*"
num_cpus = "*"
reqwest = { version = "*", default-features = false, features = ["json", "stream"] }
semver = "*"
serde = { version = "*", features = ["derive"] }
serde_json = "*"
sha2 = "*"
tar = "*"
tokio = { version = "*", features = ["rt-multi-thread", "macros", "fs", "io-util", "sync", "time"] }
url = "*"
