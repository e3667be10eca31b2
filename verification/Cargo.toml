[package]
name = "stateless_witness"
version = "0.1.0"
edition = "2021"
publish = false

[dependencies]
alloy-primitives = "=1.7.3"
alloy-rlp = "=0.3.17"
alloy-consensus = "=2.5.0"
alloy-eips = "=2.5.0"
alloy-hardforks = "=0.4.11"
revm-database = "=43.0.1"
revm-state = "=43.0.1"
revm-bytecode = "=43.0.0"
serde = { version = "=1.0.229", features = ["derive"] }
serde_json = "=1.0.154"
prost = "=0.14.4"
tracing-subscriber = { version = "=0.3.23", features = ["env-filter"] }
walkdir = "=2.5.0"
thiserror = "=2.0.21"

[dev-dependencies]
alloy-rpc-types-debug = "=2.5.0"
flate2 = "*"
