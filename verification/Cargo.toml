[package]
name = "sql_grammar"
version = "0.1.0"
edition = "2021"
publish = false

[dependencies]
bit-vec = "0.6"
serde = { version = "1", features = ["derive"] }
