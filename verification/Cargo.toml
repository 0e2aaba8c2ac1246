[package]
name = "hithit"
version = "0.1.0"
edition = "2021"
publish = false

[dependencies]
lru-cache = "=0.1.2"
ranges = "=0.4.0"
teloxide = { version = "=0.13.0", features = ["macros", "webhooks-axum"] }
takecell = "<0.1.2"
tokio = { version = "1", features = ["rt-multi-thread", "macros", "net"] }
sqlx = { version = "0.8", default-features = false, features = ["postgres", "runtime-tokio", "migrate"] }
sentry = { version = "0.34", default-features = false, features = ["backtrace", "contexts", "panic", "tracing"] }
color-eyre = "0.6"
eyre = "0.6"
tracing = "0.1"
tracing-subscriber = { version = "0.3", features = ["env-filter"] }
log = "0.4"
dotenvy = "0.15"
once_cell = "1"
futures-core = "0.3"
parking_lot = "0.12"
axum = "0.7"
thiserror = "1"
