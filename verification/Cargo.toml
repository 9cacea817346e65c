[package]
name = "abctool"
version = "0.1.0"
edition = "2021"
publish = false

[dependencies]
glob = "*"
handlebars = "*"
regex = "1"
serde = { version = "1", features = ["derive"] }
serde_derive = "1"
serde_json = "1"
tiny_http = "*"
unidecode = "*"
url = "2"
