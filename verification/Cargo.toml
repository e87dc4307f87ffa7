[package]
name = "http_file_headers"
version = "0.1.0"
edition = "2021"
publish = false

[dependencies]
blake2 = "*"
httpdate = "*"
mime_guess = "*"
