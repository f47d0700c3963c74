[package]
name = "storage_analyzer_lib"
version = "0.1.0"
edition = "2021"
publish = false

[dependencies]
rayon = "1"
serde = { version = "1", features = ["derive"] }
sysinfo = { version = "0.29", default-features = false }
tauri = { version = "2", default-features = false }
