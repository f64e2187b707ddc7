[package]
name = "fingertips"
version = "0.1.0"
edition = "2021"
publish = false

[dependencies]
argparse = "0.2"
byteorder = "1"
displaydoc = "0.2"
thiserror = "1"
