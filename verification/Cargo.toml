[package]
name = "autocref"
version = "0.1.0"
edition = "2021"
publish = false

[dependencies]
regex = "1"
zip = "0.6"
clap = { version = "3", features = ["cargo"] }
slog = "2"
slog-scope = "4"
slog-term = "2"
