[package]
name = "merkle_bitmap"
version = "0.1.0"
edition = "2021"
publish = false

[dependencies]
amcl_wrapper = "0.4.0"
jni = "0.19.0"
rand = "0.7.3"
serde_json = "1.0"
