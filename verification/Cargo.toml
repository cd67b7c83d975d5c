[package]
name = "wine_pipeline"
version = "0.1.0"
edition = "2021"
publish = false

[dependencies]
anyhow = "*"
bigdecimal = "*"
dotenv = "*"
futures = "*"
sqlx = { version = "*", default-features = false, features = ["postgres", "runtime-tokio", "bigdecimal", "macros"] }
tokio = { version = "*", default-features = false, features = ["rt-multi-thread", "macros", "time"] }
