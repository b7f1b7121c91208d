[package]
name = "beanru"
version = "0.1.0"
edition = "2021"
publish = false

[dependencies]
md5 = "*"
beancount-parser = "*"
rust_decimal = "*"
csv = "*"
serde = { version = "*", features = ["derive"] }
clap = { version = "*", features = ["derive"] }
tokio = { version = "*", features = ["fs", "rt-multi-thread", "macros"] }
anyhow = "*"
