[package]
name = "sonnerie"
version = "0.1.0"
edition = "2021"
publish = false

[dependencies]
lz4_flex = "*"
clap = "*"
fs2 = "*"

[dev-dependencies]
byteorder = "*"
