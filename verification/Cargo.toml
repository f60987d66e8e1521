[package]
name = "rbe"
version = "0.1.0"
edition = "2021"
publish = false

[dependencies]
anyhow = "=1.0.104"
cargo-util = ">=0.2.15, <=0.2.26"
futures-util = "=0.3.34"
hex = "=0.4.3"
prost = "=0.14.4"
prost-types = "0.14"
rand = "=0.10.3"
sha2 = "=0.11.1"
tokio = { version = "=1.54.1", features = ["rt", "net", "time"] }
tonic = { version = "=0.14.9", default-features = false, features = ["channel", "codegen"] }
tonic-prost = "=0.14.9"
tracing = "=0.1.44"
