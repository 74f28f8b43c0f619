[package]
name = "deuterium_orm"
version = "0.1.0"
edition = "2021"
publish = false

[dependencies]
time = "=0.1.45"
postgres = "=0.19.14"
r2d2 = "=0.8.10"
r2d2_postgres = "=0.18.2"
deuterium = { version = "=0.5.0", default-features = false }
