[package]
name = "spartan-codec"
version = "0.1.0"
edition = "2021"
publish = false

[dependencies]
rug = { version = "=1.19.2", default-features = false, features = ["integer"] }
gmp-mpfr-sys = { version = "1", default-features = false, features = ["use-system-libs"] }
rayon = "=1.12.0"

[dev-dependencies]
rand = "=0.8.8"
