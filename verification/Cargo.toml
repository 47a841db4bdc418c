[package]
name = "zeromasque"
version = "0.1.0"
edition = "2021"
publish = false

[dependencies]
anyhow = "1"
base64ct = { version = "1", features = ["alloc"] }
boring = "4"
clap = { version = "4", features = ["derive"] }
foreign-types-shared = "0.3"
futures = "0.3"
libc = "0.2"
log = "0.4"
monoio = "0.2"
quiche = { version = "0.24", features = ["boringssl-boring-crate"] }
rand = "0.8"
serde = { version = "1", features = ["derive"] }
serde_json = "1"
socket2 = { version = "0.5", features = ["all"] }
