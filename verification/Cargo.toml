[package]
name = "lmqueue"
version = "0.1.0"
edition = "2021"
publish = false

[dependencies]
lmdb = "=0.8.0"
lmdb-sys = "=0.8.0"
clap = "=4.6.7"

[dev-dependencies]
tempfile = "=3.27.0"
