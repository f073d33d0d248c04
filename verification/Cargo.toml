[package]
name = "psbattletools"
version = "0.1.0"
edition = "2021"
publish = false

[dependencies]
indexmap = "*"
rayon = "*"
structopt = "*"
prettytable-rs = "*"

[dev-dependencies]
gjson = "*"
