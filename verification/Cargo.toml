[package]
name = "libgtr"
version = "0.1.0"
edition = "2021"
publish = false

[dependencies]
byteorder = "1"
crossbeam-channel = "0.5"
log = "0.4"
serialport = { version = "4", default-features = false }
thiserror = "1"
