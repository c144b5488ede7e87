[package]
name = "android_xml_converter"
version = "0.1.0"
edition = "2021"
publish = false

[dependencies]
base64 = "*"
faster-hex = "*"
quick-xml = "*"
