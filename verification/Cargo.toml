[package]
name = "conda_curation"
version = "0.1.0"
edition = "2021"
publish = false

[dependencies]
# The client type that `rattler_repodata_gateway` takes; its library is named `reqwest_middleware`.
astral-reqwest-middleware = { version = "=0.5.1", default-features = false }
bitvec = "=1.1.1"
clap = { version = "=4.6.7", features = ["derive"] }
futures = "=0.3.34"
# Home of `default_cache_dir`, which says where fetched indexes are kept.
rattler_cache = { version = "=0.10.20", default-features = false }
rattler_conda_types = "=0.57.1"
rattler_repodata_gateway = "=0.36.6"
rayon = "=1.12.0"
regex = "=1.13.1"
reqwest = { version = "=0.13.5", default-features = false }
serde_json = "=1.0.154"
serde_yaml = "=0.9.34"
tikv-jemallocator = "=0.7.0"
tokio = { version = "=1.54.1", features = ["macros", "rt"] }
url = "=2.5.8"
