[package]
name = "steadcopy"
version = "0.1.0"
edition = "2021"
publish = false

[dependencies]
md-5 = "=0.10.6"
xxhash-rust = { version = "=0.8.19", features = ["xxh64"] }
url = "=2.5.8"
time = { version = "=0.3.55", features = ["formatting", "parsing", "macros", "serde"] }
serde = { version = "=1.0.229", features = ["derive"] }
serde_json = "=1.0.154"
clap = { version = "=4.6.7", features = ["derive"] }
rusqlite = { version = "=0.31.0", features = ["bundled"] }
