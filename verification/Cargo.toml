[package]
name = "process_scheduler"
version = "0.1.0"
edition = "2021"
publish = false

[dependencies]
atoi = "2"
aya = "0.13"
aya-ebpf = "0.1"
bstr = "1"
compact_str = "0.7"
const_format = "0.2"
itoa = "1"
kdl = "4"
memchr = "2"
pipewire = "0.7"
qcell = "0.5"
thiserror = "1"
tracing = "0.1"
