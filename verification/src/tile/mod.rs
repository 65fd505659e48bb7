//! Tiles: reading rasters, rendering them, and selecting vector data.

pub mod raster_cache;
pub mod raster_load;
pub mod raster_open;
pub mod raster_ovr;
pub mod raster_render;
pub mod types;
pub mod vector_check;
pub mod vector_tile;
