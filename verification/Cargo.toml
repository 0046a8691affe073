[package]
name = "word2vec"
version = "0.1.0"
edition = "2021"
publish = false

[dependencies]
byteorder = "=1.5.0"
rustc_apfloat = "*"
softfp = "*"
ieee-apsqrt = "*"
