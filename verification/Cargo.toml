[package]
name = "tagfs"
version = "0.1.0"
edition = "2021"
publish = false

[dependencies]
blake2 = "*"
hex = "*"
rand = "*"
diesel = { version = "*", features = ["sqlite"] }
libsqlite3-sys = { version = "*", features = ["bundled"] }
fuser = "*"
libc = "*"
config = "*"
serde = { version = "*", features = ["derive"] }
log = "*"
pretty_env_logger = "*"
walkdir = "*"
magic = "*"
id3 = "*"
