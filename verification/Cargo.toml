[package]
name = "argon_write"
version = "0.1.0"
edition = "2021"
publish = false

[dependencies]
path-clean = "1"
rbx_dom_weak = "2"
anyhow = "1"
log = "0.4"
actix-web = { version = "4", default-features = false, features = ["macros"] }
actix-msgpack = "*"
serde = { version = "1", features = ["derive"] }
