[package]
name = "schema_diff"
version = "0.1.0"
edition = "2021"
publish = false

[dependencies]
url = "*"
clap = { version = "*", features = ["derive"] }
tokio = { version = "*", features = ["macros", "rt-multi-thread"] }
mysql_async = "*"
rust_xlsxwriter = "*"
