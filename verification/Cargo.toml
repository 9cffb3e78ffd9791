[package]
name = "hddm"
version = "0.1.0"
edition = "2021"
publish = false

[dependencies]
flate2 = "=1.1.10"
bzip2 = "=0.6.1"
quick-xml = "=0.38.4"
heck = "=0.5.0"
indexmap = "=2.14.2"
thiserror = "=2.0.21"
anyhow = "=1.0.104"
clap = { version = "=4.6.7", features = ["derive"] }
quote = "=1.0.47"
proc-macro2 = "=1.0.107"
syn = { version = "=3.0.9", features = ["full"] }
prettyplease = "=0.3.0"
