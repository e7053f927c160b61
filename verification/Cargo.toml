[package]
name = "sniprun"
version = "0.1.0"
edition = "2021"
publish = false

[dependencies]
unindent = "=0.1.11"
log = "=0.4.35"
neovim-lib = "=0.6.1"
# not called directly: neovim-lib's rmpv 0.4 needs the rmp 0.8 interface before 0.8.10
rmp = "=0.8.8"
