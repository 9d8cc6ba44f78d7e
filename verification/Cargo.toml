[package]
name = "pizza-analysis-nori"
version = "0.1.0"
edition = "2021"
publish = false

[dependencies]
hashbrown = "=0.15.5"
lindera = "=4.0.1"
