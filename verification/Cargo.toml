[package]
name = "bsgs_dlog"
version = "0.1.0"
edition = "2021"
publish = false

[dependencies]
dashmap = "*"
rayon = "*"
