[package]
name = "amadeus"
version = "0.1.0"
edition = "2021"
publish = false

[dependencies]
byteorder = "1"
fastrand = "2"
half = "2"
memmap2 = "0.9"
bytemuck = { version = "1", features = ["derive"] }
rayon = "1"
serde = { version = "1", features = ["derive"] }
serde_json = "1"
ureq = { version = "2", features = ["json"] }
