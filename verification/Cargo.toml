[package]
name = "pop_disk_manager"
version = "0.1.0"
edition = "2021"
publish = false

[dependencies]
anyhow = "=1.0.104"
async-io = "=2.6.0"
better-panic = "=0.3.0"
cradle = "=0.2.2"
devicemapper = "=0.34.8"
envfile = "=0.2.1"
libcryptsetup-rs = "=0.16.1"
libudev = "=0.3.0"
os-release = "=0.1.0"
postage = "=0.5.0"
rand = "=0.8.8"
serde = { version = "=1.0.229", features = ["derive"] }
sys-mount = { version = "=3.1.1", default-features = false }
thiserror = "=1.0.69"
zbus = "=3.15.2"
zvariant = "=3.15.2"
