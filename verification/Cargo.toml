[package]
name = "dns_server"
version = "0.1.0"
edition = "2021"

[dependencies]
bytebuffer = "2"
rand = "0.8"
