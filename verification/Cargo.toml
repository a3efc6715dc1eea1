[package]
name = "dbqueue"
version = "0.1.0"
edition = "2021"
publish = false

[dependencies]
uuid = { version = "*", features = ["v4"] }
bincode = "*"
rustc-serialize = "*"
mio = "*"
eventual = "*"
iobuf = "*"
comm = "*"
threadpool = "*"
log = "*"
