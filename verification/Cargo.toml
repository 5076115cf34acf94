[package]
name = "entropic"
version = "0.1.0"
edition = "2021"
publish = false

[dependencies]
color-backtrace = "0.5"
crossbeam-channel = "0.5"
libc = "0.2"
signal-hook = "0.1"
term_size = "0.3"
termios = "0.3"
