[package]
name = "bucket_storage"
version = "0.1.0"
edition = "2021"
publish = false

[dependencies]
memmap2 = "=0.5.10"
rand = "=0.7.3"
solana-measure = "2.3"
