[package]
name = "spritz"
version = "0.1.6"
edition = "2021"
publish = false

[dependencies]
anyhow = "1"
axum = "0.8"
clap = { version = "4", features = ["derive"] }
hostname = "0.4"
httpdate = "1"
if-addrs = "*"
local-ip-address = "0.6"
rustix = { version = "1", features = ["fs"] }
socket2 = "0.6"
tokio = { version = "1", features = ["full"] }
tokio-util = { version = "0.7", features = ["io"] }
tower = { version = "0.5", features = ["util"] }
tower-http = { version = "0.6", features = ["set-header", "timeout"] }
tracing = "0.1"
tracing-subscriber = { version = "0.3", features = ["env-filter"] }
urlencoding = "2"
uuid = { version = "1", features = ["v4", "v5"] }
walkdir = "2"
