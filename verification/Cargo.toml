[package]
name = "nft-set-elem"
version = "0.1.0"
edition = "2021"
publish = false

[dependencies]
bytes = "1"
clap = { version = "4", features = ["derive"] }
netlink-sys = { version = "0.8", features = ["tokio_socket"] }
tokio = { version = "1", features = ["rt", "time", "macros"] }
