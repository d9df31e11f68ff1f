[package]
name = "svd_compress"
version = "0.1.0"
edition = "2021"
publish = false

[dependencies]
chrono = "0.4"
colored = "2"
fern = "0.6"
log = "0.4"
peroxide = "*"
png = "0.16"
