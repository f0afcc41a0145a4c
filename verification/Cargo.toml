[package]
name = "rls-vfs"
version = "0.4.0"
edition = "2021"
publish = false

[dependencies]
rls-span = "=0.5.4"
racer = "=2.0.14"
