[package]
name = "pfx2as"
version = "0.1.0"
edition = "2021"
publish = false

[dependencies]
chrono = "0.4"
itertools = "0.10"
crossbeam-channel = "0.5"
threadpool = "1.8"
oneio = "*"
bgpkit-broker = "*"
bgpkit-parser = "0.9"
