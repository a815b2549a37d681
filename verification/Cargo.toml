[package]
name = "dpc-common"
version = "0.1.0"
edition = "2021"
publish = false

[dependencies]
ariadne = "*"
clap = { version = "*", features = ["derive"] }
hashbrown = "*"
rustc-hash = "*"
serde = { version = "*", features = ["derive"] }
serde_json = "*"
smallvec = "*"
strsim = "*"
