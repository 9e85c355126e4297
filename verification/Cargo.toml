[package]
name = "rsnumpy"
version = "0.1.0"
edition = "2021"
publish = false

[dependencies]
rand = "0.9"
rand_distr = "0.5"
ndarray = "*"
pyo3 = "*"
rayon = "*"
rustfft = "*"
zip = { version = "*", default-features = false }
