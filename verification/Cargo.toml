[package]
name = "dns_proxy"
version = "0.1.0"
edition = "2021"
publish = false

[dependencies]
bpaf = "=0.9.28"
http = "1"
rustls = "0.22"
tokio = { version = "=1.54.1", features = ["net", "rt-multi-thread", "sync", "time"] }
tracing = "=0.1.44"
tracing-subscriber = { version = "=0.3.23", features = ["env-filter"] }
webpki-roots = "0.26"
xitca-io = { version = "=0.1.0", features = ["runtime"] }
xitca-tls = { version = "=0.1.0", features = ["rustls"] }
xitca-unsafe-collection = "=0.1.1"
