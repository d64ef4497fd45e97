[package]
name = "strided_gemm"
version = "0.1.0"
edition = "2021"

[dependencies]
candle-metal-kernels = "0.3"
metal = "0.27"
