[package]
name = "gix_norm"
version = "0.1.0"
edition = "2021"
publish = false

[dependencies]
gix-path = "=0.13.0"
gix-object = "=0.65.0"
gix-hash = { version = "=0.27.0", features = ["sha1"] }
gix-validate = "=0.12.0"
bstr = "=1.13.1"
