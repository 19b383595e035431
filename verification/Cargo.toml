[package]
name = "anchors"
version = "0.6.0"
edition = "2021"
publish = false

[dependencies]
indexmap = "2"
im-rc = { version = "15.1.0", features = ["pool"] }
smallvec = "1"
libc = "0.2"
tracing = "0.1"
