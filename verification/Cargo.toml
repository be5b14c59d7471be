[package]
name = "oxigraph_succinct"
version = "0.1.0"
edition = "2021"
publish = false

[dependencies]
anyhow = "=1.0.104"
clap = { version = "=4.6.7", features = ["derive"] }
deko = "0.6"
dsi-bitstream = "=0.9.2"
dsi-progress-logger = "=0.8.10"
env_logger = "=0.11.11"
itertools = "=0.14.0"
lender = "=0.4.2"
log = "=0.4.35"
oxrdf = "=0.3.5"
oxrdfio = "=0.2.7"
rayon = "=1.12.0"
rdst = "=0.20.14"
rustc-hash = "=2.1.3"
serde = { version = "=1.0.229", features = ["derive"] }
serde_json = "=1.0.154"
spareval = "0.2"
sux = "=0.10.3"
tempfile = "=3.27.0"
tiny-varint = "=0.2.0"
value-traits = "=0.2.1"
zstd = "=0.13.4"
