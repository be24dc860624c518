[package]
name = "rustnbt"
version = "0.1.0"
edition = "2021"
publish = false

[dependencies]
bytemuck = "1"
num-traits = "0.2"
chumsky = "0.9"
indexmap = "2"
thiserror = "1"
