[package]
name = "kvs_log"
version = "0.1.0"
edition = "2021"
publish = false

[dependencies]
dashmap = "*"
clap = { version = "*", features = ["derive"] }
log = "*"
simple_logger = "*"
crossbeam = "*"
num_cpus = "*"
serde = { version = "*", features = ["derive"] }
serde_json = "*"
tokio = { version = "*", features = ["rt-multi-thread", "net", "sync", "macros"] }
axum = "*"
tower-http = { version = "*", features = ["cors", "trace"] }
reqwest = { version = "*", default-features = false, features = ["json"] }
rayon = "*"
sled = "*"
