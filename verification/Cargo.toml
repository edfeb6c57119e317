[package]
name = "marf_index"
version = "0.1.0"
edition = "2021"
publish = false

[dependencies]
sha2 = "0.10"
rusqlite = "0.31"
memmap2 = "0.9"
parking_lot = "0.12"
