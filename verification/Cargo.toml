[package]
name = "rpmstore"
version = "0.1.0"
edition = "2021"
publish = false

[dependencies]
uuid = { version = "*", features = ["v4"] }
serde = { version = "*", features = ["derive"] }
serde_json = "*"
serde_yaml = "*"
quick-xml = { version = "*", features = ["serialize"] }
niffler = { version = "*", default-features = false, features = ["gz"] }
ureq = "2"
rustls = "*"
rayon = "*"
retry = "*"
thiserror = "*"
anyhow = "*"
serde_with = "*"
