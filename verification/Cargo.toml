[package]
name = "fluxon_kv"
version = "0.1.0"
edition = "2021"
publish = false

[dependencies]
async-trait = "0.1"
bitcode = { version = "0.6", features = ["derive"] }
chrono = "0.4"
crossbeam = "0.8"
dashmap = "6"
foyer = "*"
futures = "0.3"
hex = "0.4"
io-uring = "0.7"
libc = "0.2"
moka = { version = "0.12", features = ["sync", "future"] }
parking_lot = "0.12"
rand = "0.8"
sha2 = "0.10"
tokio = { version = "1", features = ["rt-multi-thread", "sync", "time", "macros"] }
tracing = "0.1"
