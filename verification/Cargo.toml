[package]
name = "gtfs_transfers"
version = "0.1.0"
edition = "2021"
publish = false

[dependencies]
csv = "*"
structopt = "*"
