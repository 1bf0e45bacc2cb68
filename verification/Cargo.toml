[package]
name = "wfc_multiset"
version = "0.1.0"
edition = "2021"
publish = false

[dependencies]
rand = "=0.7.3"
