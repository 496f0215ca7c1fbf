[package]
name = "objectfs"
version = "0.1.0"
edition = "2021"
publish = false

[dependencies]
aws-config = "=1.12.0"
aws-sdk-s3 = "=1.152.0"
bytes = "=1.12.1"
clap = "=4.6.7"
fuser = "=0.18.0"
futures = "=0.3.34"
google-cloud-storage = "=1.20.0"
libc = "=0.2.190"
time = "=0.3.55"
tokio = { version = "=1.53.2", features = ["macros", "rt-multi-thread"] }
tracing = "=0.1.44"
tracing-subscriber = { version = "=0.3.23", features = ["json"] }
