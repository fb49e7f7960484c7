[package]
name = "minechat-protocol"
version = "0.1.0"
edition = "2021"
publish = false

[dependencies]
zstd = "*"
uuid = { version = "*", features = ["v4"] }
serde_json = "*"
kyori-component-json = "*"
base64 = "*"
nu-ansi-term = "*"
serde = { version = "*", features = ["derive"] }
serde_cbor = "*"
tokio = { version = "*", features = ["net", "io-util", "rt", "macros"] }
tokio-rustls = { version = "*", default-features = false, features = ["ring", "tls12", "logging"] }
rustls = { version = "*", default-features = false, features = ["ring", "std", "tls12", "logging"] }
async-trait = "*"
thiserror = "*"
miette = "*"
log = "*"
