[package]
name = "bevy_bitgrid_spatial"
version = "0.1.0"
edition = "2021"
publish = false

[dependencies]
hashbrown = "=0.17.1"
ahash = "=0.8.12"
smallvec = "=1.16.4"
