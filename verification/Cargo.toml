[package]
name = "sqlmerge"
version = "0.1.0"
edition = "2021"
publish = false

[dependencies]
rusqlite = { version = "=0.41.1", features = ["bundled", "session", "hooks"] }
toml = { version = "=1.1.8", features = ["preserve_order"] }
