[package]
name = "nkgrep"
version = "0.1.0"
edition = "2021"
publish = false

[dependencies]
grep-matcher = "0.1"
grep-regex = "0.1"
grep-searcher = "0.1"
ignore = "0.4"
libc = "0.2"
memchr = "2"
rayon = "1"
serde = { version = "1", features = ["derive"] }
serde_json = "1"
