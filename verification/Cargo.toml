[package]
name = "skagedal_tools"
version = "0.1.0"
edition = "2021"
publish = false

[dependencies]
anyhow = "=1.0.104"
chrono = "=0.4.45"
clap = { version = "=4.6.7", features = ["derive"] }
console = "=0.16.6"
crossterm = "=0.29.0"
dialoguer = "=0.12.0"
dirs = "=6.0.0"
filetime = "=0.2.29"
include_dir = "=0.7.4"
ratatui = "=0.29.0"
rayon = "=1.11.0"
regex = "=1.12.4"
rusqlite = { version = "=0.37.0", features = ["bundled"] }
serde = { version = "=1.0.229", features = ["derive"] }
serde_json = { version = "=1.0.154", features = ["preserve_order"] }
serde_yaml_ng = "=0.10.0"
shellexpand = "=3.1.2"
thiserror = "=2.0.21"
toml = "=0.9.8"
xmltree = { version = "=0.11.0", features = ["attribute-order"] }
