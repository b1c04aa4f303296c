[package]
name = "output_fuzz_common"
version = "0.1.0"
edition = "2021"
rust-version = "1.95"
publish = false

[dependencies]
base64 = "=0.22.1"
flate2 = "=1.1.10"
oxc = "=0.133.0"
proptest = "=1.12.0"
rolldown = "=1.0.3"
rolldown_common = "=1.0.3"
serde_json = { version = "=1.0.154", features = ["preserve_order"] }
tokio = { version = "=1.54.1", features = ["rt"] }

# Held to the releases that `rolldown` 1.0.3 builds with.
rolldown_devtools = "=1.0.3"
rolldown_devtools_action = "=1.0.3"
rolldown_ecmascript = "=1.0.3"
rolldown_error = "=1.0.3"
rolldown_fs = "=1.0.3"
rolldown_sourcemap = "=1.0.3"
rolldown_std_utils = "=1.0.3"
rolldown_tracing = "=1.0.3"
rolldown_utils = "=1.0.3"
string_wizard = "=1.0.3"
oxc_resolver = "=11.19.1"
