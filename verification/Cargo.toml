[package]
name = "splayed"
version = "0.1.0"
edition = "2021"
publish = false

[dependencies]
arrow = { version = "=59.3.2", default-features = false, features = ["ffi", "ipc", "pyarrow"] }
arrow-array = { version = "=59.3.2", default-features = false }
arrow-schema = { version = "=59.3.2", default-features = false }
async-trait = "=0.1.92"
bytemuck = "=1.25.2"
datafusion = { version = "=55.2.0", default-features = false }
futures = "=0.3.34"
polars = { version = "=0.45.1", default-features = false, features = ["lazy", "dtype-date", "dtype-datetime", "dtype-i8", "dtype-i16", "dtype-u8", "dtype-u16"] }
polars-arrow = { version = "=0.45.1", default-features = false }
pyo3 = { version = "*", features = ["abi3", "extension-module"] }
tokio = { version = "=1.54.1", default-features = false, features = ["sync", "rt"] }
