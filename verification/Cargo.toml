[package]
name = "ddup_bak"
version = "0.1.0"
edition = "2021"
publish = false

[dependencies]
atomicwrites = "=0.4.4"
blake2 = "=0.10.6"
brotli = { version = "=9.0.0", features = ["portable-float"] }
chrono = "=0.4.45"
clap = "=4.6.7"
colored = "=3.1.1"
dashmap = "=6.2.1"
flate2 = "=1.1.10"
ignore = "=0.4.33"
libc = "=0.2.191"
positioned-io = "=0.3.5"
rayon = "=1.12.0"
tar = "=0.4.46"
