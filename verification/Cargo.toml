[package]
name = "dronegowski"
version = "0.1.0"
edition = "2021"
publish = false

[dependencies]
bincode = "1.3"
crossbeam-channel = "0.5"
fern = "0.7"
log = "0.4"
rand = "0.9"
serde = { version = "1", features = ["derive"] }
simplelog = "0.12"
thiserror = "2"
