[package]
name = "blackboards"
version = "0.1.0"
edition = "2021"
publish = false

[dependencies]
rand = "0.8"
diesel = { version = "1.4", features = ["sqlite"] }
rocket = "0.5"
dotenv = "0.15"
log = "0.4"
