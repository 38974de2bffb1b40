[package]
name = "ntex_grpc"
version = "0.1.0"
edition = "2021"
rust-version = "1.95"
publish = false

[dependencies]
ntex-bytes = "=1.14.0"
heck = "=0.5.0"
ntex-http = "1"
ntex-h2 = "3"
ntex-util = "3"
ntex-service = "4"
ntex-io = "3"
thiserror = "=2.0.21"
log = "=0.4.34"
