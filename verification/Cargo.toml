[package]
name = "nft_clob"
version = "0.1.0"
edition = "2021"
publish = false

[dependencies]
anchor-lang = "=0.28.0"
anchor-spl = { version = "=0.28.0", default-features = false, features = ["token"] }
bytemuck = { version = "=1.25.2", features = ["derive", "min_const_generics"] }
