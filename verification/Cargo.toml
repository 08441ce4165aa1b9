[package]
name = "makefile_lsp"
version = "0.1.0"
edition = "2021"
publish = false

[dependencies]
makefile-lossless = "=0.4.8"
rowan = "=0.16.1"
text-size = "=1.1.1"
tower-lsp-server = "=0.23.0"
tokio = { version = "=1.54.1", features = ["rt-multi-thread", "io-std", "macros", "sync"] }
tracing-subscriber = "=0.3.23"
scip = "=0.10.0"
protobuf = "=3.7.2"
