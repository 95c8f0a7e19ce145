[package]
name = "picolv2"
version = "0.1.0"
edition = "2021"
publish = false

[dependencies]
goblin = "=0.10.7"
oxttl = "=0.2.5"
oxrdf = "=0.3.5"
oxiri = "=0.2.11"
rio_turtle = "=0.8.6"
rio_api = "=0.8.6"
libm = "=0.2.16"
