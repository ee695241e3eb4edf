[package]
name = "udp_hole_punching"
version = "0.1.0"
edition = "2021"
publish = false

[dependencies]
env_logger = "0.10"
log = "0.4"
structopt = "0.3"
tokio = { version = "1", features = ["macros", "net", "rt", "rt-multi-thread", "sync", "time"] }

[dev-dependencies]
bincode = "1.3"
serde = "1"
