[package]
name = "coll-birth"
version = "0.2.2"
edition = "2021"
publish = false

[dependencies]
bytemuck = "1"
cdflib = "*"
clap = { version = "4", features = ["derive"] }
mmap-rs = "*"
num = "0.4"
rayon = "1"
voracious_radix_sort = { version = "1", features = ["voracious_multithread"] }
