[package]
name = "raft"
version = "0.1.0"
edition = "2021"
publish = false

[dependencies]
rand = "=0.7.3"
futures = { version = "=0.3.34", features = ["thread-pool"] }
futures-timer = "=3.0.4"
async-trait = "=0.1.92"
log = "=0.4.34"
prost = "=0.14.4"
prost-derive = "=0.14.4"
