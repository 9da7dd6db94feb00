[package]
name = "nombrilo"
version = "0.1.0"
edition = "2021"
publish = false

[dependencies]
flate2 = "1"
lz4_flex = "0.11"
clap = { version = "4", features = ["derive"] }
rayon = "1"
tabled = "*"
