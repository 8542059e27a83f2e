[package]
name = "filetools"
version = "0.1.0"
edition = "2021"
publish = false

[dependencies]
anyhow = "1"
camino = "1"
clap = { version = "4", features = ["derive"] }
filetime = "0.2"
glob = "0.3"
pathdiff = { version = "0.2", features = ["camino"] }
rand = "0.9"
regex = "1"
sha1_smol = "1"
time = { version = "0.3", features = ["formatting"] }
unidecode = "0.3"
