[package]
name = "stun_message"
version = "0.1.0"
edition = "2021"
publish = false

[dependencies]
bytecodec = "=0.4.15"
