[package]
name = "jsonnet_bytecode"
version = "0.1.0"
edition = "2021"
publish = false

[dependencies]
ariadne = "*"
slotmap = "*"
md5 = "*"
sha1 = "*"
sha2 = "*"
sha3 = "*"
serde_json = "*"
