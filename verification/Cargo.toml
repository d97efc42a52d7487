[package]
name = "clipcloak"
version = "0.1.0"
edition = "2021"
publish = false

[dependencies]
anyhow = "=1.0.104"
dirs = "=5.0.1"
hf-hub = { version = "=0.4.3", default-features = false, features = ["ureq", "rustls-tls"] }
ndarray = "=0.16.1"
ort = { version = "=2.0.0-rc.9", default-features = false, features = ["load-dynamic", "ndarray"] }
# Nothing calls this one: the line holds the bindings beneath `ort` to the release that
# this `ort` was written for. Left to itself it takes a later one, and does not compile.
ort-sys = { version = "=2.0.0-rc.9", default-features = false }
serde = { version = "=1.0.229", features = ["derive"] }
serde_json = "=1.0.154"
tiny_http = "=0.12.0"
tokenizers = { version = "=0.21.4", default-features = false, features = ["fancy-regex"] }
uuid = { version = "=1.29.0", features = ["v4"] }
# For Windows alone; on other systems it does not build, and nothing calls it.
winreg = "=0.52.0"
