[package]
name = "pg_glot_hybrid"
version = "0.1.0"
edition = "2021"
publish = false

[dependencies]
lindera = "=3.0.7"
pgrx = "=0.16.1"
