[package]
name = "agent_atuin"
version = "0.1.0"
edition = "2021"
publish = false

[dependencies]
time = { version = "=0.3.55", features = ["formatting"] }
atuin-common = "=18.24.4"
# Not called here: atuin-common depends on it, and this pin keeps it at a
# release that builds with the available Rust toolchain.
easy-cast = "=0.5.4"
tiny-bip39 = "=2.0.0"
serde = { version = "=1.0.229", features = ["derive"] }
serde_json = "=1.0.154"
clap = { version = "=4.6.7", features = ["derive"] }
eyre = "=0.6.14"
sqlx = { version = "=0.8.6", default-features = false, features = ["sqlite", "runtime-tokio"] }
tokio = { version = "=1.54.1", features = ["rt-multi-thread", "macros"] }
directories = "=6.0.0"
async-trait = "=0.1.92"
fs-err = "=3.3.2"
interim = { version = "=0.2.1", features = ["time_0_3"] }
indicatif = "=0.18.6"
itertools = "=0.15.0"
