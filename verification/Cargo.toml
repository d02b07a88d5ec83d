[package]
name = "magma_ecs"
version = "0.1.0"
edition = "2021"
publish = false

[dependencies]
roaring = "*"
parking_lot = "*"
rayon = "*"
