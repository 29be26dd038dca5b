[package]
name = "sctp-proto"
version = "0.1.0"
edition = "2021"
publish = false

[dependencies]
bytes = "1"
fxhash = "0.2"
rand = "0.8"
slab = "0.4"
thiserror = "1"
tracing = "0.1"
tracing-subscriber = { version = "0.3", default-features = false, features = ["fmt", "std"] }
