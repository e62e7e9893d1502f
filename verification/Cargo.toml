[package]
name = "acid-store"
version = "0.1.0"
edition = "2021"
publish = false

[dependencies]
blake2 = "=0.8.1"
cdchunking = "=1.0.1"
miniz_oxide = "0.7"
uuid = { version = "=0.8.2", features = ["v4"] }
serde = { version = "=1.0.229", features = ["derive"] }
rmp-serde = "1"
filetime = "=0.2.29"
xattr = "1"
nix = "=0.17.0"
bitflags = "=1.3.2"
chrono = "0.4"
posix-acl = "1"
