[package]
name = "ray"
version = "0.1.0"
edition = "2021"
publish = false

[dependencies]
byteorder = "*"
chrono = "*"
prost = "*"
uuid = { version = "*", features = ["v4"] }
tokio = { version = "*", features = ["rt", "rt-multi-thread", "sync", "time", "macros"] }
futures = "*"
tonic = "*"
clap = "*"
serde = { version = "*", features = ["derive"] }
serde_yaml = "*"
log = "*"
env_logger = "*"
num_cpus = "*"
crossbeam = "*"
lazy_static = "*"
rand = "*"
byte_string = "*"
metrics = "*"
