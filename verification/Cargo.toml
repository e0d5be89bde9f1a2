[package]
name = "meritrank"
version = "0.1.0"
edition = "2021"
publish = false

[dependencies]
rand = "0.8"
random = "*"
tinyset = "*"
lru = "*"
left-right = "*"
bincode = "2"
envy = "*"
serde = { version = "1", features = ["derive"] }
