[package]
name = "crumble"
version = "0.1.0"
edition = "2021"
publish = false

[dependencies]
sqlparser = "=0.63.0"
serde = { version = "=1.0.229", features = ["derive"] }
bincode = { version = "=2.0.1", features = ["serde"] }
thiserror = "=2.0.21"
inkwell = { version = "0.5", features = ["llvm18-0"] }
