[package]
name = "sme_swp"
version = "0.1.0"
edition = "2021"
publish = false

[dependencies]
egg = "=0.11.0"
good_lp = { version = "=1.15.3", default-features = false, features = ["microlp"] }
svg = "=0.18.0"
