[package]
name = "nitro"
version = "0.1.0"
edition = "2021"
publish = false

[dependencies]
bimap = "=0.6.3"
hashbrown = "=0.17.1"
uuid = { version = "=1.29.0", features = ["v4"] }
serde = { version = "1", features = ["derive"] }
serde_json = "1"
ptree = "*"

[dev-dependencies]
rand = "=0.10.3"
