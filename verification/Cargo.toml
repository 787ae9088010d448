[package]
name = "ngrammatic"
version = "0.1.0"
edition = "2021"
publish = false

[dependencies]
dsi-bitstream = "=0.10.1"
sux = "=0.14.0"
value-traits = "=0.2.1"
rayon = "=1.12.0"
flate2 = "=1.1.10"
env_logger = "=0.11.11"
log = "=0.4.34"
indicatif = "=0.18.6"
