[package]
name = "covid19"
version = "0.1.0"
edition = "2021"
publish = false

[dependencies]
csv = "*"
num-format = "*"
tabwriter = "*"
reqwest = { version = "*", default-features = false, features = ["blocking", "default-tls"] }
structopt = "*"
env_logger = "*"
