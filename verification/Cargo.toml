[package]
name = "openbim_mmc"
version = "0.1.0"
edition = "2021"
publish = false

[dependencies]
zip = { version = "2", default-features = false, features = ["deflate"] }
quick-xml = "0.38"
iri-string = "0.7"
unicode-normalization = "0.1"
uuid = "1"
thiserror = "2"
