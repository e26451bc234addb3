[package]
name = "slimsync"
version = "0.1.0"
edition = "2021"
publish = false

[dependencies]
chacha20poly1305 = "0.10"
clap = { version = "4", features = ["derive"] }
crossbeam-channel = "0.5"
daemonize = "0.5"
glob = "0.3"
jwalk = "0.8"
nix = { version = "0.29", features = ["fanotify"] }
notify = "6"
rand = "0.8"
rusqlite = { version = "0.31", features = ["bundled"] }
serde = { version = "1", features = ["derive"] }
serde_json = "1"
sha2 = "0.10"
tokio = { version = "1", features = ["full"] }
toml = "0.8"
tracing = "0.1"
tracing-subscriber = { version = "0.3", features = ["env-filter"] }
zenoh = { version = "1", default-features = false, features = ["transport_tcp"] }
