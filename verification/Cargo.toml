[package]
name = "simple_geo_server"
version = "0.1.0"
edition = "2021"
publish = false

[dependencies]
axum = "=0.8.9"
clap = { version = "=4.6.7", features = ["derive"] }
crs-definitions = "=0.6.0"
geo = "=0.33.1"
geo-types = "=0.7.20"
geodesy = "=0.15.0"
geojson = "=1.0.0"
image = { version = "=0.25.10", default-features = false, features = ["png"] }
kml = "=0.15.0"
log = "=0.4.35"
quick-xml = "=0.41.0"
serde = { version = "=1.0.229", features = ["derive"] }
serde_json = { version = "=1.0.154", features = ["float_roundtrip"] }
serde_yaml = "0.9"
shapefile = { version = "=0.9.0", features = ["geo-types"] }
tempfile = "=3.27.0"
tiff = "=0.11.3"
tokio = { version = "=1.54.1", features = ["full"] }
tower-http = { version = "=0.6.11", features = ["cors", "compression-gzip", "trace"] }
tracing = "=0.1.44"
tracing-log = "=0.2.0"
tracing-subscriber = "=0.3.23"
utoipa = "=5.5.0"
utoipa-swagger-ui = { version = "=9.0.2", features = ["axum", "vendored"] }
utoipauto = "=0.3.1"
webp = "=0.3.1"
wgpu = "=30.0.1"
wkt = "=0.14.0"
