[package]
name = "geo_coding"
version = "0.1.0"
edition = "2021"
publish = false

[dependencies]
anyhow = "=1.0.104"
clap = { version = "=4.6.7", features = ["derive"] }
human-units = { version = "=0.6.0", features = ["derive"] }
memmap2 = "=0.9.12"
osmpbf = "=0.3.8"
rayon = "=1.12.0"
zstd = "=0.14.3"

[dev-dependencies]
arbitrary = "=1.5.0"
arbtest = "=0.3.2"
