[package]
name = "rs_ipc_stream2df"
version = "0.1.0"
edition = "2021"
publish = false

[dependencies]
arrow = "=59.3.0"
arrow-array = "=59.3.0"
arrow-ipc = "=59.3.0"
arrow-schema = "=59.3.0"
arrow-select = "=59.3.0"
clap = { version = "=4.6.7", features = ["derive"] }
datafusion = "=55.2.0"
futures = "=0.3.34"
tokio = { version = "=1.53.2", features = ["macros", "rt-multi-thread"] }
