[package]
name = "fepdf_model"
version = "0.1.0"
edition = "2021"
publish = false

[dependencies]
unicode-normalization = "=0.1.26"
hayro-ccitt = "=0.5.0"
hayro-jbig2 = "=0.4.0"
hayro-jpeg2000 = "=0.5.0"
zune-jpeg = "=0.5.15"
zune-core = "=0.5.3"
miniz_oxide = { version = "*", features = ["with-alloc"] }

[dev-dependencies]
flate2 = "*"
image = { version = "0.25", default-features = false, features = ["jpeg"] }
