[package]
name = "chain_clusterizer"
version = "0.1.0"
edition = "2021"
publish = false

[dependencies]
byteorder = "1"
vec_map = "0.8"
sha2 = "0.10"
base58 = "*"
bitcoin-bech32 = "*"
bech32 = "*"
glob = "0.3"
memmap = "0.7"
dirs = "*"
void = "1"
