[package]
name = "simple_combinators"
version = "0.1.0"
edition = "2021"
publish = false

[dependencies]
colour = "*"
powershell_script = "*"
rand = "*"
