[package]
name = "poolwatch"
version = "0.1.0"
edition = "2021"
publish = false

[dependencies]
anyhow = "1"
dotenv = "0.15"
futures = "0.3"
hex = "0.4"
tokio = { version = "1", default-features = false, features = ["macros", "rt-multi-thread"] }
web3 = { version = "0.19", default-features = false, features = ["ws-tokio"] }
ethabi = "18"

[dev-dependencies]
num-bigint = "0.4"
