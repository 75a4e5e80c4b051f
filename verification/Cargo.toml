[package]
name = "par2rs"
version = "0.1.0"
edition = "2021"
publish = false

[dependencies]
rustc-hash = "2"
thiserror = "2"
rayon = "1"
libc = "0.2"
log = "0.4"
