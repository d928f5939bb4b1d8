[package]
name = "hs_sig"
version = "0.1.0"
edition = "2021"
publish = false

[dependencies]
hs-bindgen-traits = "=0.6.3"
thiserror = "=1.0.69"
displaydoc = "=0.2.7"
