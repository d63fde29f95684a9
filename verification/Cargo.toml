[package]
name = "prima"
version = "0.1.0"
edition = "2021"
publish = false

[dependencies]
chrono = "0.4"
geo = "0.28"
hyper = "1"
sea-orm = { version = "0.12", default-features = false, features = ["macros", "with-chrono"] }
async-trait = "0.1"
