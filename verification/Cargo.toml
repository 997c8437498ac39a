[package]
name = "freeswitch_sofia_trace_parser"
version = "0.1.0"
edition = "2021"
publish = false

[dependencies]
memchr = "*"
clap = { version = "*", features = ["derive"] }
regex = "*"
tracing = "*"
tracing-subscriber = { version = "*", features = ["env-filter"] }
