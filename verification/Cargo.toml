[package]
name = "rcore_os"
version = "0.1.0"
edition = "2021"
publish = false

[dependencies]
bit_field = "*"
spin = "*"
lazy_static = "*"
riscv = "*"
hashbrown = "*"
