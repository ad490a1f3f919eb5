[package]
name = "mlocate"
version = "0.1.0"
edition = "2021"
publish = false

[dependencies]
roaring = "*"
crc32fast = "1"
zstd = "*"
regex = "1"
chrono = "0.4"
fxhash = "0.2"
serde = { version = "1", features = ["derive"] }
serde_json = "1"
anyhow = "1"
thiserror = "*"
clap = { version = "4", features = ["derive"] }
clap_complete = "4"
colored = "*"
comfy-table = "*"
term_size = "0.3"
is-terminal = "0.4"
memmap2 = "*"
signal-hook = "0.3"
ctrlc = "3"
hostname = "*"
crossbeam-channel = "0.5"
dashmap = "*"
ignore = "0.4"
infer = "*"
mime_guess = "2"
shlex = "1"
libc = "0.2"

[dev-dependencies]
tempfile = "3"
