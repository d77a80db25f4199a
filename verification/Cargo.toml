[package]
name = "size_profiler"
version = "0.1.0"
edition = "2021"
publish = false

[dependencies]
fxprof-processed-profile = "=0.8.1"
indicatif = "=0.18.6"
mimalloc = "=0.1.52"
object = "=0.36.7"
serde_json = "=1.0.154"
tokio = { version = "=1.54.1", features = ["macros", "rt-multi-thread"] }
uuid = "=1.29.0"
wholesym = "=0.8.1"
