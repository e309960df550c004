[package]
name = "webfishing_installer"
version = "0.1.0"
edition = "2021"
publish = false

[dependencies]
binary-reader = "*"
md5 = "0.7"
patch-apply = "*"
serde = "1"
serde_derive = "1"
serde_json = "1"
asky = "*"
async-std = "1"
reqwest = { version = "0.12", default-features = false, features = ["rustls-tls"] }
steamlocate = "2"
sudo = "*"
sysinfo = "0.32"
tokio = { version = "1", features = ["macros", "rt-multi-thread"] }
