[package]
name = "vsb"
version = "0.1.0"
edition = "2021"
publish = false

[dependencies]
globset = "=0.4.21"
regex = "=1.13.1"
sha2 = "=0.11.1"
md-5 = "=0.11.0"
log = "=0.4.35"
clap = "=4.6.7"
serde = { version = "=1.0.229", features = ["derive"] }
serde_yaml = "=0.9.34"
serde_json = "=1.0.154"
serde_urlencoded = "=0.7.1"
chrono = "=0.4.45"
shellexpand = "=3.1.2"
zstd = "=0.14.3"
bzip2 = "*"
tar = "=0.4.46"
nix = { version = "=0.31.3", features = ["user", "fs", "signal", "process"] }
libc = "=0.2.191"
filetime = "=0.2.29"
rayon = "=1.12.0"
mime = "=0.3.17"
prometheus = { version = "=0.14.0", default-features = false }
reqwest = { version = "=0.12.28", default-features = false, features = ["blocking", "json", "rustls-tls"] }
