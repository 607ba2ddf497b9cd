[package]
name = "juan"
version = "0.1.0"
edition = "2021"
publish = false

[dependencies]
la-arena = "=0.3.1"
num-traits = "=0.2.19"
num_enum = "=0.7.6"
thiserror = "=2.0.21"
