[package]
name = "tabby"
version = "0.1.0"
edition = "2021"
publish = false

[dependencies]
ansi-to-tui = "7"
chrono = "0.4"
colored_json = "5"
crossterm = { version = "0.28", features = ["use-dev-tty"] }
md5 = "0.7"
ratatui = "0.29"
rust_decimal = "1"
serde_json = { version = "1", features = ["preserve_order"] }
unicode-width = "0.2"
uuid = "1"
