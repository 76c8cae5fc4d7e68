[package]
name = "cpusbfl"
version = "0.1.0"
edition = "2021"
publish = false

[dependencies]
md5 = "0.7"
libafl = "0.15"
libafl_bolts = "0.15"
lief = "*"
clap = { version = "4", features = ["derive"] }
serde = { version = "1", features = ["derive"] }
serde_json = "1"
log = "0.4"
env_logger = "0.11"
libc = "0.2"
postcard = { version = "1", features = ["use-std"] }
zstd = "0.13"
tempfile = "3"
rand = "0.8"
dtw_rs = "*"
sv-parser = "0.13"
ouroboros = "0.18"
