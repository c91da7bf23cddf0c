[package]
name = "vnscope"
version = "0.1.0"
edition = "2021"
publish = false

[dependencies]
rand = "=0.8.8"
serde = { version = "=1.0.229", features = ["derive"] }
serde_json = "=1.0.154"
headers = "=0.4.2"
http = "=1.5.0"
actix-web = "=4.18.1"
log = "=0.4.35"
hmac = "=0.12.1"
sha2 = "=0.10.9"
hex = "=0.4.3"
quick-xml = "=0.42.0"
chrono = { version = "=0.4.45", default-features = false, features = ["alloc"] }
aes-gcm = "=0.10.3"
md-5 = "=0.10.6"
anyhow = "1"
nalgebra = "0.33"
rand_distr = "0.4"
rayon = "1"
