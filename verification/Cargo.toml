[package]
name = "prompt_manager"
version = "0.1.0"
edition = "2021"
publish = false

[dependencies]
anstream = "=0.6.21"
anstyle = "=1.0.14"
clap = { version = "=4.6.7", features = ["derive"] }
clap_complete = { version = "=4.6.11", features = ["unstable-dynamic"] }
rusqlite = { version = "=0.41.1", features = ["bundled"] }
self_update = { version = "=1.3.3", features = ["checksums"] }
serde = { version = "=1.0.229", features = ["derive"] }
serde_yaml = "=0.9.34"
shell-words = "=1.1.1"
similar = "=2.7.0"
tempfile = "=3.27.0"
thiserror = "=2.0.21"
time = { version = "=0.3.55", features = ["local-offset"] }
timeago = "=0.4.2"
