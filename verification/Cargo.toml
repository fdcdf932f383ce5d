[package]
name = "process-manager"
version = "0.1.0"
edition = "2021"
publish = false

[dependencies]
chrono = { version = "0.4", default-features = false, features = ["std"] }
clap = { version = "4", features = ["derive"] }
comfy-table = "7"
crossterm = "0.28"
sysinfo = "0.33"
