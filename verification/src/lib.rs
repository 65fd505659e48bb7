//! A server for geographic files: rasters and vector data as tiles and maps.
//!
//! The modules decide and compute; reading files, drawing with floating-point numbers and
//! answering requests is left to the program around them. Numbers with a fraction appear
//! as the bits of doubles, as texts, or as values of a type parameter.

pub mod batch_render;
pub mod config;
pub mod data_source;
pub mod double;
pub mod gpu_renderer;
pub mod json;
pub mod numbers;
pub mod openapi;
pub mod order;
pub mod paths;
pub mod protocols;
pub mod raster;
pub mod registry;
pub mod render_farm;
pub mod reproject;
pub mod resample;
pub mod server;
pub mod shapefile_reader;
pub mod table;
pub mod text;
pub mod tile;
pub mod tile_cache;
pub mod xml;

pub use config::{Cli, Commands, ServerConfig};
pub use data_source::TileQueryParams;
pub use paths::{directory_size_bytes, is_raster_ext, is_vector_ext, validate_path};
pub use registry::init_registry;
pub use server::{BatchRequest, BatchTileReq, MountRequest};
