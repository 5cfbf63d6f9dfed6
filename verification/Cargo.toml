[package]
name = "taudio"
version = "0.1.0"
edition = "2021"
publish = false

[dependencies]
bitvec = "1"
bytemuck = "1"
smallvec = "1"
thiserror = "2"
