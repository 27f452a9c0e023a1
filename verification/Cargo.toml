[package]
name = "urlencoded_query"
version = "0.1.0"
edition = "2021"
publish = false

[dependencies]
serde = "*"
serde_urlencoded = "*"
url = "*"

[dev-dependencies]
form_urlencoded = "*"
