[package]
name = "alloy"
version = "0.1.0"
edition = "2021"
publish = false

[dependencies]
bincode = "=1.3.3"
byteorder = "=1.5.0"
bytes = "=1.8.0"
fatal = "=0.1.1"
getrandom = "=0.2.17"
kafka-protocol = "=0.8.2"
log = "=0.4.35"
multimap = "=0.10.1"
proxy-wasm = "=0.2.5"
regex = "=1.13.1"
serde = { version = "=1.0.229", features = ["derive"] }
serde_json = "=1.0.154"
serde_yaml = "=0.9.34"
string = "=0.3.1"
