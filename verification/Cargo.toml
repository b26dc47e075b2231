[package]
name = "kuntu-scan"
version = "0.1.0"
edition = "2021"
publish = false

[dependencies]
ignore = "0.4"
rayon = "1"
serde = { version = "1", features = ["derive"] }
windows-sys = { version = "0.59", features = ["Win32_Foundation", "Win32_Security", "Win32_Storage_FileSystem"] }
