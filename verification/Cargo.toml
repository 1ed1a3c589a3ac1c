[package]
name = "casr_cluster_map"
version = "0.1.0"
edition = "2021"
publish = false

[dependencies]
anyhow = "=1.0.104"
clap = { version = "=4.6.7", features = ["cargo"] }
gdb-command = "=0.7.8"
goblin = "=0.10.7"
libcasr = { version = "=2.13.1", features = ["serde"] }
num_cpus = "=1.17.0"
rayon = "=1.12.0"
serde = { version = "=1.0.229", features = ["derive"] }
serde_json = "=1.0.154"
