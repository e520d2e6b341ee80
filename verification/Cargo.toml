[package]
name = "spor"
version = "0.1.0"
edition = "2021"
publish = false

[dependencies]
ndarray = "=0.16.1"
serde_yaml = "=0.8.26"
serde = { version = "1", features = ["derive"] }
encoding = "=0.2.33"
ordered-float = "=5.5.0"
uuid = { version = "=1.29.0", features = ["v4"] }
glob = "=0.3.4"
docopt = "=1.1.1"
exit-code = "*"
failure = "=0.1.8"
log = "0.4"
simple_logger = "=5.2.0"
diff = "=0.1.13"
