[package]
name = "rav1e"
version = "0.5.0"
edition = "2021"
publish = false

[dependencies]
bitstream-io = "1"
crossbeam = "0.8"
rayon = "1.5"
y4m = "0.7"
log = "0.4"
fern = "0.6"
console = "0.14"
better-panic = "0.2"
signal-hook = "0.1"
libc = "0.2"
cfg-if = "1"
toml = "0.5"
rust_hawktracer = "0.7"
