[package]
name = "mimirsbrunn"
version = "0.1.0"
edition = "2021"
publish = false

[dependencies]
csv = "*"
docopt = "*"
geo = "*"
log = "*"
osmpbfreader = "*"
rs-es = "*"
serde = { version = "1", features = ["derive"] }
serde_json = "1"
structopt = "*"
