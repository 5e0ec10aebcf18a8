[package]
name = "incline_watershed"
version = "0.1.0"
edition = "2021"
publish = false

[dependencies]
geo = "=0.29.3"
hfx = "=0.5.0"
i_overlay = "=1.9.4"
serde_json = "=1.0.154"
thiserror = "=2.0.21"
tracing = "=0.1.44"
