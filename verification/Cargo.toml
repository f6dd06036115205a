[package]
name = "ecm"
version = "0.1.0"
edition = "2021"
publish = false

[dependencies]
rug = { version = "1", default-features = false, features = ["integer", "rand"] }
gmp-mpfr-sys = { version = ">=1.4, <1.6", default-features = false, features = ["use-system-libs"] }
log = "=0.4.34"
clap = "=4.6.7"
simple_logger = "=5.2.0"
hwloc = "=0.5.0"
