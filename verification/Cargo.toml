[package]
name = "jgrep"
version = "0.1.0"
edition = "2021"

[dependencies]
clap = { version = "=4.6.7", features = ["derive"] }
colored = "=2.2.0"
itertools = "=0.13.0"
serde_json = { version = "=1.0.154", features = ["preserve_order", "arbitrary_precision"] }
