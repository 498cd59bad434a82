[package]
name = "chronos_core"
version = "0.1.0"
edition = "2021"
publish = false

[dependencies]
blake3 = "=1.8.7"
lru = "=0.18.5"
rand = "=0.10.3"
slh-dsa = "=0.1.0"
signature = "=2.3.0-pre.4"
