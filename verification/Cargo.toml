[package]
name = "storyteller_opds_proxy"
version = "0.1.0"
edition = "2021"
publish = false

[dependencies]
log = "0.4"
quick-xml = "=0.39.4"
tiny_http = "0.12"
ureq = "3"
url = "=2.5.8"
zip = { version = "=7.4.0", default-features = false, features = ["deflate"] }
