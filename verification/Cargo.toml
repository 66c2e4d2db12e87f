[package]
name = "awsst"
version = "0.1.0"
edition = "2021"
publish = false

[dependencies]
aws-config = "=1.12.0"
aws-sdk-sts = "=1.119.0"
aws-types = ">=1.6.0, <1.7.0"
chrono = "=0.4.45"
clap = { version = "=4.6.7", features = ["derive"] }
ctrlc = "=3.5.2"
dialoguer = "=0.11.0"
dirs = "=5.0.1"
prettytable-rs = "=0.10.0"
regex = "=1.13.1"
setenv = "=0.1.2"
tokio = { version = "=1.54.1", features = ["macros", "rt-multi-thread"] }
