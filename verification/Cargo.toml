[package]
name = "ocamlrep_marshal"
version = "0.1.0"
edition = "2021"
publish = false

[dependencies]
sha1 = "0.10"
libc = "0.2"
bincode = "1"
bumpalo = "3"
cxx = "1"
anyhow = "1"
