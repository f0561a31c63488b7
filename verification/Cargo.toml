[package]
name = "llm_nn"
version = "0.1.0"
edition = "2021"
publish = false

[dependencies]
digit-layout = "=0.3.1"
gemm = "=0.18.2"
