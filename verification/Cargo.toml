[package]
name = "ragegun"
version = "0.1.0"
edition = "2021"
publish = false

[dependencies]
cortical-io = "=0.1.14"
kdam = "=0.3.0"
lazy_static = "=1.5.1"
num = "=0.4.3"
num-traits = "=0.2.19"
rayon = "=1.12.0"
rocksdb = "=0.19.0"
ruzstd = "=0.3.1"
serde = { version = "=1.0.229", features = ["derive"] }
simd-json = "0.18"
twox-hash = "=1.6.3"
zstd = "=0.12.4"
