[package]
name = "tanakh_solver"
version = "0.1.0"
edition = "2021"
publish = false

[dependencies]
num-rational = { version = "0.4", default-features = false }
rand = "0.8"
regex = "1"
chrono = "0.4"
structopt = "0.3"
