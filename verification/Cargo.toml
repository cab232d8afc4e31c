[package]
name = "hylarana"
version = "0.1.0"
edition = "2021"
publish = false

[dependencies]
crc = "=3.4.0"
xxhash-rust = { version = "=0.8.19", features = ["xxh3"] }
bytes = "=1.12.1"
socket2 = "=0.5.10"
thread-priority = "=1.2.0"
tokio = { version = "=1.54.1", features = ["net", "rt", "macros"] }
log = "=0.4.35"
rubato = "0.16"
