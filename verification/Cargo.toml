[package]
name = "trustmark_imaging"
version = "0.1.0"
edition = "2021"
publish = false

[dependencies]
fast_image_resize = { version = "=5.5.0", features = ["image"] }
image = { version = "=0.25.10", default-features = false }
ndarray = "=0.16.1"
ort = { version = "=2.0.0-rc.9", default-features = false, features = ["ndarray", "load-dynamic"] }
# Pins the bindings that this version of ort was written for: it does not build with later ones.
ort-sys = { version = "=2.0.0-rc.9", default-features = false }
thiserror = "=2.0.21"
