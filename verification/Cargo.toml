[package]
name = "approval_voting"
version = "0.1.0"
edition = "2021"
publish = false

[dependencies]
bitvec = "=0.20.4"
futures = "0.3"
parking_lot = "0.11"
