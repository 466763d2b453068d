[package]
name = "blockpack"
version = "0.1.0"
edition = "2021"
publish = false

[dependencies]
arcode = "*"
bitbit = "*"
fixed-vec-deque = "*"
flate2 = "*"
hilbert_index = "*"
xz2 = "*"
anyhow = "*"
arrayvec = "*"
byteorder = "*"
humansize = "*"
hematite-nbt = "*"
