[package]
name = "micronet_antenna"
version = "0.1.0"
edition = "2021"
publish = false

[dependencies]
rand = "0.8"
serde = { version = "1", features = ["derive"] }
postcard = { version = "1", features = ["use-std"] }
thiserror = "2"
crossterm = "0.28"
ratatui = "0.29"
os_kernel_foundry = "*"
