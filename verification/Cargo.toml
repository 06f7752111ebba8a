[package]
name = "petricrab"
version = "0.1.0"
edition = "2021"
publish = false

[dependencies]
slotmap = "1"
rkyv = "0.8"
