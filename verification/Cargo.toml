[package]
name = "aether_core"
version = "0.1.0"
edition = "2021"
publish = false

[dependencies]
aes-gcm = "=0.10.3"
anyhow = "=1.0.104"
argon2 = "=0.5.3"
blake3 = "=1.8.7"
chacha20poly1305 = "=0.10.1"
clap = { version = "=4.6.7", features = ["derive"] }
crc32fast = "=1.5.4"
divsufsort = "=2.0.0"
fastcdc = "=3.2.1"
getrandom = "=0.2.17"
humansize = "=2.1.3"
lz4_flex = "=0.11.6"
rpassword = "=7.5.4"
subtle = "=2.6.1"
zeroize = "=1.9.1"
zstd = "=0.13.4"
