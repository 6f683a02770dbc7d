[package]
name = "syncdash"
version = "0.10.0"
edition = "2021"
publish = false

[dependencies]
blake3 = "=1.8.7"
fastcdc = "=3.2.1"
unicode-normalization = "=0.1.26"
cap-fs-ext = "=4.0.3"
cap-primitives = "=4.0.3"
clap = { version = "4", features = ["derive"] }
filetime = "0.2"
getrandom = "0.3"
keyring = "3"
libc = "0.2"
rayon = "1"
rpassword = "7"
russh = { version = "=0.65.0", default-features = false, features = ["ring", "rsa"] }
russh-sftp = "=3.0.1"
rustls = { version = "0.23", default-features = false, features = ["ring", "std", "logging", "tls12"] }
rustls-native-certs = "0.8"
serde = { version = "1", features = ["derive"] }
serde_json = "1"
suppaftp = { version = "=12.2.1", features = ["rustls-ring"] }
tokio = { version = "1", features = ["rt-multi-thread", "net", "time", "io-util"] }
toml = "0.8"
walkdir = "2"
