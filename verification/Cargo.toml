[package]
name = "reveldb"
version = "0.1.0"
edition = "2021"
publish = false

[dependencies]
crc = "3"
integer-encoding = "4"
