[package]
name = "rcore_lab"
version = "0.1.0"
edition = "2021"
publish = false

[dependencies]
bit_field = "=0.10.3"
hashbrown = "=0.7.2"
riscv = "=0.6.0"
device_tree = "*"
