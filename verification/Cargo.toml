[package]
name = "savedata_backup"
version = "0.1.0"
edition = "2021"
publish = false

[dependencies]
anyhow = "1"
directories = "*"
fs_extra = "1"
getopts = "0.2"
glob = "0.3"
tar = "0.4"
walkdir = "2"
