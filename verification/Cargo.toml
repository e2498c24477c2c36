[package]
name = "halo_lib"
version = "0.1.0"
edition = "2021"
publish = false

[dependencies]
clap = { version = "*", features = ["derive"] }
futures = "*"
nix = { version = "*", features = ["net"] }
serde = { version = "*", features = ["derive"] }
tokio = { version = "*", features = ["rt-multi-thread", "net", "time", "io-util", "macros"] }
tokio-util = { version = "*", features = ["compat"] }
toml = "*"
