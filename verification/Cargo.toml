[package]
name = "blvm_core"
version = "0.1.0"
edition = "2021"
publish = false

[dependencies]
anyhow = "=1.0.104"
dirs = "=7.0.0"
hex = "=0.4.3"
ripemd = "*"
num_cpus = "=1.17.0"
sha2 = "=0.11.0"
tokio = { version = "=1.53.2", features = ["rt-multi-thread", "sync", "macros", "time"] }
