[package]
name = "svn_list_parallel"
version = "0.1.0"
edition = "2021"
publish = false

[dependencies]
svn-cmd = "*"
async-std = "*"
async-recursion = "*"
log = "*"
