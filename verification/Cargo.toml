[package]
name = "todo-track"
version = "0.1.0"
edition = "2021"
publish = false

[dependencies]
anyhow = "1"
chrono = { version = "0.4", default-features = false, features = ["clock", "std"] }
clap = { version = "4", features = ["derive"] }
colored = "2"
regex = "1"
rusqlite = { version = "0.32", features = ["bundled"] }
thiserror = "1"
walkdir = "2"
