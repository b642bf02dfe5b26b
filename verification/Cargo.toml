[package]
name = "directory_core"
version = "0.1.0"
edition = "2021"
publish = false

[dependencies]
itertools = "0.14"
uuid = { version = "1", features = ["v3"] }
chrono = "0.4"
sea-orm = { version = "1", default-features = false, features = ["macros", "with-chrono"] }
async-trait = "0.1"
serde = { version = "1", features = ["derive"] }
tracing = "0.1"
