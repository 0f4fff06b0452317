[package]
name = "videobackup"
version = "0.1.0"
edition = "2021"
publish = false

[dependencies]
clap = "2.33"
crc32fast = "1"
image = { version = "0.23", default-features = false, features = ["png"] }
num_cpus = "1"
path-absolutize = "3"
reed-solomon = "0.2"
