[package]
name = "dirserve"
version = "0.1.0"
edition = "2021"
publish = false

[dependencies]
percent-encoding = "*"
v_htmlescape = "*"
zip = { version = "*", default-features = false, features = ["deflate"] }
actix-web = { version = "*", default-features = false, features = ["macros"] }
actix-files = "*"
actix-multipart = "*"
futures = "*"
log = "*"
walkdir = "*"

[dev-dependencies]
tar = "*"
