[package]
name = "harvester"
version = "0.1.0"
edition = "2021"
publish = false

[dependencies]
serde_json = "1"
bson = "2"
bzip2 = "0.4"
rayon = "1"
num_cpus = "1"
reqwest = { version = "0.12", default-features = false, features = ["blocking"] }
mongodb = { version = "3", features = ["sync"] }
soup = "0.5"
html5ever = "0.23"
