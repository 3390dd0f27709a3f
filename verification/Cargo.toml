[package]
name = "prosemirror"
version = "0.1.0"
edition = "2021"
publish = false

[dependencies]
pulldown-cmark = { version = "0.8", default-features = false }
pulldown-cmark-to-cmark = "6"
serde = { version = "1", features = ["derive"] }
serde_json = "1"
thiserror = "1"
displaydoc = "0.2"
