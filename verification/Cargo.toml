[package]
name = "dumpflow"
version = "0.1.0"
edition = "2021"
publish = false

[dependencies]
flate2 = "*"
rayon = "*"
mysql = { version = "*", default-features = false }
notify = "*"
dotenv = "*"
