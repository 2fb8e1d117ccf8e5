[package]
name = "zdu"
version = "0.1.0"
edition = "2021"
publish = false

[dependencies]
memchr = "=2.8.3"
md5 = "=0.8.1"
humansize = "=2.1.3"
owo-colors = "=4.4.0"
clap = { version = "=4.6.7", features = ["derive"] }
clap_complete = "=4.6.11"
tracing = "=0.1.44"
tracing-indicatif = "=0.3.14"
tracing-subscriber = { version = "=0.3.23", features = ["env-filter"] }
