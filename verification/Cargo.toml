[package]
name = "bzip3"
version = "0.1.0"
edition = "2021"
publish = false

[dependencies]
byteorder = "1"
bytesize = "1"
thiserror = "1"

[dev-dependencies]
rand = "0.8"
rayon = "1"
