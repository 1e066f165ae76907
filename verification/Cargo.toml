[package]
name = "s3_file_upload"
version = "0.1.0"
edition = "2021"
publish = false

[dependencies]
rust-crypto = "=0.2.36"
rusoto_core = { version = "*", default-features = false, features = ["rustls"] }
rusoto_credential = "*"
rusoto_s3 = { version = "*", default-features = false, features = ["rustls"] }
term-painter = "=0.4.0"
tokio = { version = "*", features = ["rt"] }
