[package]
name = "piko_txn"
version = "0.1.0"
edition = "2021"
publish = false

[dependencies]
alpm-types = "*"
alpm-pkginfo = "*"
alpm-compress = "*"
libc = "0.2"
rustix = { version = "1", features = ["fs", "process"] }
tar = "0.4"
thiserror = "2"
time = { version = "0.3", features = ["local-offset", "std"] }

[dev-dependencies]
tempfile = "3"
