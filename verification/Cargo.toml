[package]
name = "jmap_dumper"
version = "0.1.0"
edition = "2021"
publish = false

[dependencies]
anyhow = "1"
async-trait = "0.1"
futures-util = "0.3"
