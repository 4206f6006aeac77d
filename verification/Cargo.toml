[package]
name = "sherlock"
version = "0.1.0"
edition = "2021"
publish = false

[dependencies]
memchr = "2"
levenshtein = "1"
libc = "0.2"
procfs = { version = "0.17", default-features = false }
rayon = "1"
bincode = { version = "2", features = ["serde"] }
serde = { version = "1", features = ["derive"] }
tokio = { version = "1", default-features = false, features = ["sync"] }
