[package]
name = "starskiff"
version = "0.1.0"
edition = "2021"
publish = false

[dependencies]
anyhow = "=1.0.104"
base64 = "=0.22.1"
chacha20poly1305 = "=0.10.1"
clap = { version = "=4.6.7", features = ["derive"] }
dashmap = "=6.2.1"
ed25519-dalek = { version = "=2.2.0", features = ["rand_core"] }
futures-util = "=0.3.34"
hex = "=0.4.3"
hkdf = "=0.12.4"
hmac = "=0.12.1"
rand_core = { version = "=0.6.4", features = ["getrandom"] }
reqwest = { version = "=0.12.28", default-features = false, features = ["rustls-tls", "json"] }
rustls = { version = "=0.23.46", default-features = false, features = ["ring", "std", "tls12"] }
serde = { version = "=1.0.229", features = ["derive"] }
serde_json = "=1.0.154"
sha2 = "=0.10.9"
socket2 = { version = "=0.5.10", features = ["all"] }
thiserror = "=1.0.69"
tokio = { version = "=1.54.1", features = ["full"] }
tokio-tungstenite = { version = "=0.26.2", default-features = false, features = ["connect", "handshake", "rustls-tls-webpki-roots"] }
tun-rs = { version = "=2.8.16", features = ["async"] }
webpki-roots = "=0.26.11"
windows = { version = "=0.59.0", features = ["Win32_Foundation", "Win32_NetworkManagement_IpHelper", "Win32_NetworkManagement_Ndis", "Win32_Networking_WinSock", "Win32_Security_Cryptography", "Win32_System_Services"] }
x25519-dalek = { version = "=2.0.1", features = ["static_secrets", "zeroize"] }
zeroize = "=1.9.1"
