[package]
name = "laso_packet"
version = "0.1.0"
edition = "2021"
publish = false

[dependencies]
crc = "=3.4.0"
heapless = "=0.8.0"
