[package]
name = "sherlog_ring_buffer"
version = "0.1.0"
edition = "2021"
publish = false

[dependencies]
crc32fast = "1"
memmap2 = "0.9"
parking_lot = "0.12"
once_cell = "1"
crossbeam-utils = "0.8"
swift-bridge = "0.1"
jni = "0.21"

[dev-dependencies]
tempfile = "3"
