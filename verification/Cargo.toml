[package]
name = "serpyco_rs"
version = "0.1.0"
edition = "2021"
publish = false

[dependencies]
smallvec = "1"
itoa = "1"
ryu = "1"
simdutf8 = "0.1"
num-bigint = "0.4"
uuid = "1"
speedate = "*"
encoding_rs = "0.8"
bytecount = "0.6"
jiter = { version = "*", default-features = false }
pyo3 = "*"
micromap = "*"
nohash-hasher = "0.2"
rustc-hash = "*"
dyn-clone = "1"
