[package]
name = "pdf_view"
version = "0.1.0"
edition = "2021"
publish = false

[dependencies]
flate2 = "=1.1.10"
fontdue = "=0.9.5"
tiny-skia = { version = "=0.11.4", default-features = false, features = ["std", "simd"] }
winit = "=0.30.13"
softbuffer = "=0.4.8"
encoding_rs = "=0.8.44"
iced = { version = "=0.14.0", default-features = false, features = ["canvas", "tiny-skia", "thread-pool", "x11"] }
