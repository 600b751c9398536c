[package]
name = "path_ser"
version = "0.1.0"
edition = "2021"
publish = false

[dependencies]
serde = "1"
thiserror = "1"

[dev-dependencies]
uuid = "1"
