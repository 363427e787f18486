[package]
name = "yarpt"
version = "0.1.0"
edition = "2021"
publish = false

[dependencies]
cgmath = "0.18"
rand = "0.8"
rand_distr = "0.4"
lerp = "*"
threadpool = "1"
fltk = "1"
image = { version = "*", default-features = false, features = ["png"] }
oidn = "*"
