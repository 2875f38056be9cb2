[package]
name = "path_tree"
version = "0.1.0"
edition = "2021"
publish = false

[dependencies]
smallvec = { version = "1", features = ["const_new"] }

[dev-dependencies]
rand = "0.8"
