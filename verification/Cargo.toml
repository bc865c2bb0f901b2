[package]
name = "zim"
version = "0.1.0"
edition = "2021"
publish = false

[dependencies]
bitreader = "0.3"
byteorder = "1"
clap = { version = "4", features = ["derive"] }
hex = "0.4"
indicatif = "*"
md-5 = "*"
memmap = "0.7"
num-format = "0.4"
rayon = "1"
stopwatch = "0.0.7"
thiserror = "*"
xz2 = "0.1"
zstd = "*"
