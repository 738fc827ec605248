[package]
name = "struct_dedup"
version = "0.1.0"
edition = "2021"
publish = false

[dependencies]
clap = { version = "*", features = ["derive"] }
itertools = "*"
log = "*"
multimap = "*"
prettyplease = "*"
proc-macro2 = "*"
quote = "*"
simple_logger = "*"
syn = { version = "*", features = ["full", "visit", "visit-mut", "extra-traits"] }
