[package]
name = "udp_forwarder"
version = "0.1.0"
edition = "2021"
publish = false

[dependencies]
rust-ini = "*"
libc = "*"
auto-launch = "*"
open = "*"
