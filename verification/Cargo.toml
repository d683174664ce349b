[package]
name = "remodeco"
version = "1.0.0"
edition = "2021"
publish = false

[dependencies]
anyhow = "1"
chrono = "0.4"
clap = { version = "4", features = ["derive"] }
comfy-table = "7"
crossterm = "0.28"
directories = "5"
fs2 = "0.4"
globset = "0.4"
hex = "0.4"
libc = "0.2"
percent-encoding = "2"
rand = "0.8"
ratatui = "0.29"
serde = { version = "1", features = ["derive"] }
serde_json = "1"
sha2 = "0.10"
shell-words = "1"
similar = "2"
thiserror = "1"

[dev-dependencies]
tempfile = "3"
