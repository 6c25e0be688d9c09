[package]
name = "pref-polys"
version = "0.1.0"
edition = "2021"
publish = false

[dependencies]
anyhow = "1"
approx = "0.5"
crossbeam = "0.8"
glpk-sys = "*"
itertools = "0.10"
lazy_static = "1"
metered = "*"
num_cpus = "1"
ordered-float = "2"
parking_lot = { version = "0.11", features = ["serde"] }
rand = "0.8"
serde = { version = "1", features = ["derive"] }
serde_yaml = "0.8"
structopt = "0.3"
