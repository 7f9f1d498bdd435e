[package]
name = "lua_compiler"
version = "0.1.0"
edition = "2021"
publish = false

[dependencies]
num-traits = "0.2"
failure = "0.1"
gc-arena = "0.2"
