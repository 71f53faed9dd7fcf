[package]
name = "hm_type_sys"
version = "0.1.0"
edition = "2021"
publish = false
