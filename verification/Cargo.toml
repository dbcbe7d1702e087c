[package]
name = "datatoolkit"
version = "0.1.0"
edition = "2021"
publish = false

[dependencies]
chrono = { version = "0.4", features = ["serde"] }
prettytable-rs = { version = "0.10", default-features = false }
rayon = "1"
serde = { version = "1", features = ["derive"] }
