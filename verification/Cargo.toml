[package]
name = "residual_risk"
version = "0.1.0"
edition = "2021"
publish = false

[dependencies]
md5 = "*"
miniz_oxide = "*"
object = "*"
proptest = "1"
