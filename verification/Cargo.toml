[package]
name = "remote_fs"
version = "0.1.0"
edition = "2021"
publish = false

[dependencies]
bytes = "*"
case_insensitive_hashmap = "*"
chrono = "*"
may = "*"
may_minihttp = "*"
percent-encoding = "*"
