[package]
name = "metapartition"
version = "0.1.0"
edition = "2021"
publish = false

[dependencies]
argh = "=0.1.19"
lineio = "=0.1.2"
