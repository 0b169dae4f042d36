[package]
name = "rpdf"
version = "0.1.0"
edition = "2021"
publish = false

[dependencies]
anyhow = "*"
clap = { version = "*", features = ["derive"] }
clap_complete = "*"
clap-verbosity-flag = "*"
dialoguer = "*"
is-terminal = "*"
log = "*"
lopdf = "*"
owo-colors = "*"
pretty_env_logger = "*"
tabled = "*"
termcolor = "*"
wild = "*"
