[package]
name = "consul_publisher"
version = "0.1.0"
edition = "2021"
publish = false

[dependencies]
base64 = "*"
consul = "*"
log = "*"
env_logger = "*"
atty = "*"
structopt = "*"
thiserror = "*"
