[package]
name = "microfloat"
version = "0.1.1"
edition = "2021"
publish = false

[dependencies]
libm = "=0.2.16"
num-traits = { version = "=0.2.19", default-features = false, features = ["libm"] }
rand = "=0.9.5"
rand_distr = "=0.5.1"
bytemuck = "=1.25.2"
rkyv = "=0.8.18"
serde = "=1.0.229"

[dev-dependencies]
serde_json = "=1.0.154"
float8 = "*"
