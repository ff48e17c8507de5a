[package]
name = "wordle_solver"
version = "0.1.0"
edition = "2021"
publish = false

[dependencies]
color-eyre = "0.6"
crossterm = { version = "0.27", features = ["event-stream"] }
futures = "0.3"
indicatif = { version = "0.17", features = ["rayon"] }
itertools = "0.13"
ratatui = "0.27"
rayon = "1"
tokio = { version = "1", features = ["full"] }
tokio-util = "0.7"
