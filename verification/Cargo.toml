[package]
name = "floaty_todo"
version = "0.1.0"
edition = "2021"
publish = false

[dependencies]
sha2 = "0.10"
hex = "0.4"
dunce = "1"
ulid = "1"
time = { version = "0.3", features = ["formatting"] }
serde = { version = "1", features = ["derive"] }
serde_json = "1"
tempfile = "3"
walkdir = "2"
thiserror = "1"
notify = "6"
notify-debouncer-full = "0.3"
