[package]
name = "mpq"
version = "0.1.0"
edition = "2021"
publish = false

[dependencies]
adler32 = "1"
flate2 = "1"
getopts = "0.2"
