[package]
name = "blockcore"
version = "0.1.0"
edition = "2021"
publish = false

[dependencies]
endian-num = "*"
redox_syscall = "*"
