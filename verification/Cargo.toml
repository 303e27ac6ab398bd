[package]
name = "degrader"
version = "0.1.0"
edition = "2021"
publish = false

[dependencies]
rand = { version = "=0.8.8", features = ["small_rng"] }
etherparse = "=0.13.0"
clap = "=2.34.0"
libc = "=0.2.190"
log = "=0.4.34"
log4rs = "=1.4.0"
