[package]
name = "modus_ponens"
version = "0.1.0"
edition = "2021"
publish = false

[dependencies]
pest = "2"
pest_derive = "2"
proc-macro2 = "1"
quote = "1"
syn = "2"
