[package]
name = "kademlia"
version = "0.1.0"
edition = "2021"
publish = false

[dependencies]
sha2 = "0.10"
rand = "0.8"
either = "1"
futures = "0.3"

[dev-dependencies]
quickcheck = "1"
