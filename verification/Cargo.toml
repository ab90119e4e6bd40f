[package]
name = "smve_asset_pack"
version = "0.1.0"
edition = "2021"
publish = false

[dependencies]
blake3 = "=1.8.7"
lz4 = "=1.28.1"
indexmap = { version = "=2.14.2", features = ["serde"] }
ignore = "=0.4.34"
toml = { version = "=0.8.23", features = ["preserve_order"] }
serde = { version = "=1.0.229", features = ["derive"] }
glob = "=0.3.4"
camino = "=1.2.6"
pathdiff = { version = "=0.2.3", features = ["camino"] }
walkdir = "=2.5.0"
clap = { version = "=4.6.7", features = ["derive"] }
wild = "=2.2.1"
mlua = { version = "=0.9.9", features = ["lua54", "vendored", "serialize"] }
