[package]
name = "webgraph_algo"
version = "0.1.0"
edition = "2021"
publish = false

[dependencies]
anyhow = "=1.0.104"
dsi-progress-logger = "=0.8.9"
kahan = "=0.1.4"
mmap-rs = "=0.7.0"
parallel_frontier = "=0.3.2"
rand = "=0.10.3"
rayon = "=1.12.0"
stderrlog = "=0.6.0"
sux = { version = "*", default-features = false }
tempfile = "=3.27.0"
