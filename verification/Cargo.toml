[package]
name = "sortnetopt"
version = "0.1.0"
edition = "2021"
publish = false

[dependencies]
arrayvec = "0.7"
better-panic = "*"
crossbeam = "*"
env_logger = "*"
indicatif = "*"
jemallocator = "*"
log = "0.4"
parking_lot = "0.12"
rayon = "1"
structopt = "0.3"
