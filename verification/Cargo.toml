[package]
name = "yank"
version = "0.1.0"
edition = "2021"
publish = false

[dependencies]
anstream = "*"
anstyle = "*"
blake3 = "*"
bytesize = "*"
clap = { version = "*", default-features = false, features = ["std", "derive", "help", "usage", "error-context"] }
eyre = "*"
data-encoding = "*"
etcetera = "*"
humantime = "*"
iroh = { version = "1", default-features = false, features = ["tls-ring"] }
percent-encoding = "*"
postcard = { version = "*", default-features = false, features = ["use-std"] }
rand = "*"
reflink-copy = "*"
rustix = { version = "1", features = ["event", "pipe", "system"] }
serde = { version = "*", features = ["derive"] }
serde_json = "*"
subtle = "*"
thiserror = "*"
tokio = { version = "*", features = ["rt-multi-thread", "macros", "sync", "time", "net", "io-util", "signal"] }
toml = "*"
tracing = "*"
tracing-subscriber = { version = "*", default-features = false, features = ["env-filter", "fmt"] }
walkdir = "*"
wayland-client = "*"
wayland-protocols = { version = "*", features = ["client", "staging"] }
wayland-protocols-wlr = { version = "*", features = ["client"] }
zeroize = "*"
