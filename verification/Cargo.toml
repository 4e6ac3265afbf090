[package]
name = "hysteresis"
version = "0.1.0"
edition = "2021"
publish = false

[dependencies]
vapoursynth4-rs = "*"
vapours = "*"
const-str = "*"
num-traits = "*"
