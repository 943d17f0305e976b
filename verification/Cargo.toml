[package]
name = "articles"
version = "0.1.0"
edition = "2021"
publish = false

[dependencies]
base64 = "0.13"
bcrypt = "*"
blake3 = "*"
comrak = "*"
whatlang = "*"
tokio = { version = "1", features = ["rt", "macros", "sync", "time"] }
sqlx = { version = "0.8", default-features = false, features = ["postgres", "runtime-tokio"] }
thirtyfour = "*"
