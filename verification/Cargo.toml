[package]
name = "txn_analytics"
version = "0.1.0"
edition = "2021"
publish = false
