[package]
name = "axfutex"
version = "0.1.0"
edition = "2021"
publish = false

[dependencies]
axerrno = "0.1.2"
axhal = "0.3.0-preview.3"
axlog = "0.3.0-preview.3"
axtask = "0.3.0-preview.3"
bitflags = "2"
kspin = "0.1.1"
lazyinit = "0.2.2"
memory_addr = "0.4.1"
