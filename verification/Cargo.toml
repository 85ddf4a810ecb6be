[package]
name = "idtree"
version = "0.1.0"
edition = "2021"
publish = false

[dependencies]
smallvec = "1"
fixedbitset = "0.5"
nohash-hasher = "0.2"
rapidhash = "*"
pyo3 = "*"

[dev-dependencies]
rand = "*"
