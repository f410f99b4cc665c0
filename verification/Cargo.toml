[package]
name = "file_search"
version = "0.1.0"
edition = "2021"
publish = false

[dependencies]
serde = { version = "1", features = ["derive"] }
serde_json = "1"
rusqlite = { version = "*", features = ["bundled"] }
crossbeam-channel = "*"
rayon = "*"
disk_list = "*"
