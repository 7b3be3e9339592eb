[package]
name = "my_tasks"
version = "0.1.0"
edition = "2021"
publish = false

[dependencies]
async-trait = "0.1"
chrono = { version = "0.4.38", default-features = false, features = ["now"] }
log = "0.4"
url = "2"
