[package]
name = "nao-m-e"
version = "0.0.1"
edition = "2021"
publish = false

[dependencies]
getrandom = "=0.3.4"
hf-hub = { version = "=1.0.0", default-features = false, features = ["blocking"] }
ort = { version = "=2.0.0-rc.13", default-features = false, features = ["std", "load-dynamic", "api-22"] }
rusqlite = { version = "=0.41.1", features = ["bundled"] }
sha2 = "0.10"
shlex = "1"
tempfile = "3"
tokenizers = { version = "=0.23.1", default-features = false, features = ["onig"] }
unicode-case-mapping = "1"
unicode-normalization = "=0.1.24"
