[package]
name = "vaultwarden-backup"
version = "0.1.0"
edition = "2021"
publish = false

[dependencies]
anyhow = "1"
clap = { version = "4", features = ["derive", "env"] }
flate2 = "1"
object_store = { version = "0.13", features = ["aws"] }
rusqlite = { version = "0.32", features = ["bundled", "backup"] }
tar = "0.4"
tempfile = "3"
time = { version = "0.3", features = ["formatting", "parsing"] }
tokio = { version = "1", features = ["rt-multi-thread"] }
