[package]
name = "galarchive"
version = "0.1.0"
edition = "2021"
publish = false

[dependencies]
base64 = "*"
byte-unit = "*"
colored = "*"
futures = "*"
humantime = "*"
isahc = "*"
percent-encoding = "*"
rusthtml = "*"
seahash = "*"
structopt = "*"
tokio = { version = "*", features = ["rt-multi-thread", "macros", "fs", "io-util", "time"] }
tokio-util = { version = "*", features = ["compat"] }
unescape = "*"
