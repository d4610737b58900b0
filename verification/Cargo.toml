[package]
name = "mar_archive"
version = "0.1.0"
edition = "2021"
publish = false

[dependencies]
clap = { version = "*", features = ["derive"] }
crc32fast = "*"
lz4 = "*"
prost = "*"
prost-types = "*"
rayon = "*"
sha2 = "*"
zstd = "*"
