[package]
name = "tuckdb"
version = "0.1.0"
edition = "2021"
publish = false

[dependencies]
zstd = "*"
sqlparser = "*"
libc = "*"
tokio = { version = "*", features = ["rt-multi-thread"] }
aws-config = { version = "*", default-features = false, features = ["behavior-version-latest"] }
aws-sdk-s3 = { version = "*", default-features = false }
