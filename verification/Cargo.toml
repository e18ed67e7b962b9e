[package]
name = "kinemagic"
version = "0.1.0"
edition = "2021"
publish = false

[dependencies]
anyhow = "*"
clap = { version = "*", features = ["derive"] }
crossterm = "*"
nalgebra = "*"
ratatui = "*"
serde = { version = "*", features = ["derive"] }
serde_yaml_ng = "*"
thiserror = "*"
