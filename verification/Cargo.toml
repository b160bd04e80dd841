[package]
name = "mindtask"
version = "0.10.0"
edition = "2021"
publish = false

[dependencies]
petgraph = "0.8"
serde = { version = "1", features = ["derive"] }
serde_json = "1"
jiff = { version = "0.2", features = ["serde"] }
clap = { version = "4", features = ["derive"] }
anyhow = "1"
thiserror = "2"
tempfile = "3"
terminal_size = "0.4"
termtree = "0.5"
