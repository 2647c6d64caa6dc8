[package]
name = "statemap"
version = "0.1.0"
edition = "2021"
publish = false

[dependencies]
serde = "1.0"
serde_derive = "1.0"
serde_json = "1.0"
natord = "1.0.9"
getopts = "0.2"
memmap = "0.7"
palette = "0.4"
rand = "0.6"
