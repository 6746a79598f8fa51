[package]
name = "gui"
version = "0.1.0"
edition = "2021"
publish = false

[dependencies]
indexmap = "=1.9.3"
slog = "=2.8.2"
ptree = { version = "=0.4.0", default-features = false }
