[package]
name = "dwarfinfo"
version = "0.1.0"
edition = "2021"
publish = false

[dependencies]
dmsort = "*"
symbolic-common = "*"
gimli = "*"
