[package]
name = "emojoy"
version = "0.1.0"
edition = "2021"
publish = false

[dependencies]
serde = { version = "1", features = ["derive"] }
serde_json = "1"
dirs = "5"
log = "0.4"
simplelog = "0.12"
arboard = { version = "3", default-features = false }
core-graphics = "0.23"
core-foundation = "0.9"
cocoa = "0.25"
objc = "0.2"
foreign-types-shared = "0.3"
