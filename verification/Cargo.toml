[package]
name = "tapir-code"
version = "0.1.0"
edition = "2021"
publish = false

[dependencies]
anyhow = "1"
clap = { version = "4", features = ["derive"] }
futures-util = "0.3"
libc = "0.2"
schemars = "*"
serde = { version = "1", features = ["derive"] }
tapir = "*"
tokio = { version = "1", features = ["macros", "rt-multi-thread", "process", "io-util", "time"] }
