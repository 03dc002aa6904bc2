[package]
name = "unparser_shared"
version = "0.2.0"
edition = "2021"
publish = false

[dependencies]
pulldown-cmark = "0.13"
pulldown-cmark-to-cmark = "22"
ureq = { version = "3", features = ["json"] }
serde = { version = "1", features = ["derive"] }
serde_json = "1"
base64 = "0.22"
thiserror = "2"
