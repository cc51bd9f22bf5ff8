[package]
name = "ironnest"
version = "0.1.0"
edition = "2021"
publish = false

[dependencies]
anyhow = "1"
float-cmp = "0.10"
libm = "0.2"
ordered-float = "5"
serde = { version = "1", features = ["derive"] }
itertools = "0.14"
log = "0.4"
slotmap = "1"
geo-types = "0.7"
