[package]
name = "rmf_reservations"
version = "0.1.0"
edition = "2021"
publish = false

[dependencies]
chrono = "0.4"
fnv = "1"
itertools = "*"
ordered-float = "*"
pathfinding = "4"
petgraph = "0.6"
rand = "0.8"
serde = { version = "1", features = ["derive"] }
serde_derive = "1"
term-table = "1"
uuid = { version = "1", features = ["v4"] }
varisat = "0.2"
