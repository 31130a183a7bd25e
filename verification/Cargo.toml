[package]
name = "etv_station"
version = "0.1.0"
edition = "2021"
publish = false

[dependencies]
clap = { version = "=4.6.7", features = ["derive"] }
glob = "=0.3.4"
nix = { version = "=0.29.0", features = ["fs"] }
rhai = { version = "=1.27.0", features = ["sync", "serde"] }
rusqlite = { version = "=0.32.1", features = ["bundled"] }
serde = { version = "=1.0.229", features = ["derive"] }
serde_json = "=1.0.154"
serde_norway = "=0.9.42"
thiserror = "=2.0.21"
time = { version = "=0.3.55", features = ["formatting", "macros", "parsing", "serde"] }
time-tz = "=2.0.0"
tokio = { version = "=1.54.1", features = ["fs", "macros", "process", "rt-multi-thread", "signal", "sync", "time"] }
tracing = "=0.1.44"
tracing-subscriber = { version = "=0.3.23", features = ["env-filter", "json"] }
ureq = { version = "=2.12.1", features = ["json"] }
