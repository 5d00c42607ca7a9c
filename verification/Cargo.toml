[package]
name = "gzeus"
version = "0.1.0"
edition = "2021"
publish = false

[dependencies]
memchr = "*"
flate2 = "*"
tokio = { version = "*", features = ["rt", "rt-multi-thread"] }
object_store = { version = "*", features = ["aws"] }
async-compression = { version = "*", features = ["tokio", "gzip"] }
