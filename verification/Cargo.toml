[package]
name = "cwe_xml"
version = "0.1.0"
edition = "2021"
publish = false

[dependencies]
quick-xml = { version = "*", features = ["serialize"] }
serde = { version = "1", features = ["derive"] }
thiserror = "1"
