[package]
name = "workspace_commit"
version = "0.1.0"
edition = "2021"
publish = false

[dependencies]
gix = { version = "=0.75.0", default-features = false, features = ["merge"] }
bstr = "=1.13.1"
anyhow = "=1.0.104"
colored = "=3.1.1"
kstring = "=2.0.2"
