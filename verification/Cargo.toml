[package]
name = "axaddrspace"
version = "0.1.0"
edition = "2021"
publish = false

[dependencies]
memory_addr = "*"
memory_set = "*"
page_table_entry = "*"
page_table_multiarch = "*"
