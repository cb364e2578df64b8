[package]
name = "webcrawl"
version = "0.1.0"
edition = "2021"
publish = false

[dependencies]
url = "*"
select = "*"
reqwest = { version = "*", default-features = false, features = ["blocking"] }
