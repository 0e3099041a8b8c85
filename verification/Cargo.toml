[package]
name = "chip8"
version = "0.1.0"
edition = "2021"
publish = false

[dependencies]
rand = "0.8"
anyhow = "1"
clap = "2"
cpal = "0.13"
blip_buf = "0.1"
miniquad = "0.3"
