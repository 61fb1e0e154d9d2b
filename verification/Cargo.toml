[package]
name = "neutron_fs"
version = "0.1.0"
edition = "2021"
publish = false

[dependencies]
rand_mt = "*"
rand_core = "*"
crc32c = "*"
