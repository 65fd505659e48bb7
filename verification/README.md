# simple_geo_server

A server for geographic files: GeoTIFF rasters and vector data (GeoJSON, shapefiles, WKT,
KML) as tiles, and as maps by the WMS, WMTS, TMS and TileJSON protocols. It also serves
plain files.

- `src/` is the library, verified with Verus. It decides and computes: which paths are
  served, what is read of a raster and in which order, which pixels a picture shows, what
  the caches keep, which sources are mounted, what the answers of the protocols say, and
  how settings and arguments are merged. Numbers with a fraction appear there as the bits
  of doubles, as texts, or as values of a type parameter.
- `app/` is the program around it: reading files, converting coordinates, drawing with
  floating-point numbers, and answering requests.
- `tests/` runs the library on given values.

What the library takes on trust is written down where it stands: `String::push`, changes
of case and the test for letters and digits (`text.rs`), definitions of reference systems
and their operations (`reproject.rs`), the reader of JSON texts (`json.rs`), the writer and
the reader of XML documents (`xml.rs`), the readers of GeoJSON, WKT and KML texts and the
writer of features (`tile/vector_tile.rs`), and the encoders of PNG and WebP files
(`tile/raster_render.rs`). A text is given to the readers of WKT and KML only where they
return on it: `tile/vector_check.rs` tests that before.
