[package]
name = "zk_tools"
version = "0.1.0"
edition = "2021"
publish = false

[dependencies]
dusk-curves = "=0.2.1"
dusk-bytes = "=0.1.7"
derive-hex = "=0.1.2"
dusk-jubjub = "=0.15.2"
sha2 = "=0.11.1"
hashbrown = "=0.17.1"
zeroize = "=1.9.1"
ff = "=0.13.1"
rand_core = "=0.6.4"
serde = { version = "=1.0.229", features = ["derive"] }
serde_json = "=1.0.154"

[dev-dependencies]
rand_chacha = "=0.10.0"
rand = "=0.10.3"
