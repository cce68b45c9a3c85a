[package]
name = "autodetect_pdf_fields"
version = "0.1.0"
edition = "2021"
publish = false

[dependencies]
regex = "=1.13.1"
image = { version = "=0.25.10", default-features = false, features = ["png"] }
base64 = "=0.22.1"
clap = { version = "=4.6.7", features = ["derive"] }
ndarray = "=0.17.2"
num_cpus = "=1.17.0"
ort = { version = "=2.0.0-rc.15", default-features = false, features = ["std", "ndarray", "tracing", "load-dynamic", "api-31"] }
pdfium-render = "=0.9.5"
printpdf = "=0.7.0"
serde = { version = "=1.0.229", features = ["derive"] }
serde_json = "=1.0.154"
thiserror = "=2.0.21"
tracing = "=0.1.44"
tracing-subscriber = { version = "=0.3.23", features = ["env-filter"] }
ureq = { version = "=3.5.1", features = ["json"] }
