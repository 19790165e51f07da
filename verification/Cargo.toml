[package]
name = "rustyknife"
version = "0.1.0"
edition = "2021"
publish = false

[dependencies]
base64 = "0.21"
charset = "0.1"
encoding_rs = "0.8"
