[package]
name = "crabshell"
version = "0.1.0"
edition = "2021"
publish = false

[dependencies]
aes-gcm = "=0.11.1"
sha2 = "=0.11.0"
rand = "=0.10.3"
zip = { version = "=8.6.0", default-features = false, features = ["deflate"] }
clap = { version = "=4.6.7", features = ["derive"] }
jni = "=0.21.1"
libc = "=0.2.190"
