//! The plain data of tiles and rasters.

use crate::reproject::GeoKeyInfo;
use crate::resample::BandStats;
use crate::tile::raster_load;
use vstd::prelude::*;

verus! {

/// How the samples of the bands lie in a file.
#[derive(Debug, Clone, Copy, PartialEq, Eq, Structural)]
pub enum InterleaveType {
    /// The bands of one pixel lie side by side.
    Chunky,
    /// Each band has chunks of its own.
    Planar,
}

/// How an image is cut into chunks.
#[derive(Debug, Clone, Copy, PartialEq, Eq, Structural)]
pub enum ChunkType {
    /// Strips over the whole width of the image.
    Strip,
    /// Tiles of a fixed size.
    Tile,
}

/// One image of a file: the full raster or one of its overviews.
#[derive(Debug, Clone)]
pub struct IfdInfo {
    pub index: usize,
    pub width: u32,
    pub height: u32,
    pub chunk_type: ChunkType,
    pub chunk_width: u32,
    pub chunk_length: u32,
    pub chunks_per_row: u32,
    pub external: bool,
    pub ifd_ptr: Option<u64>,
    pub interleave: InterleaveType,
    pub file_path: String,
}

/// How a raster is cut into blocks.
#[derive(Debug, Clone)]
pub struct RasterBlockConfig {
    pub block_width: u32,
    pub block_height: u32,
    /// The pixels around a block that are read with it.
    pub overlap: u32,
    pub step: u32,
}

impl Default for RasterBlockConfig {
    fn default() -> (config: Self)
        ensures
            config.block_width == 512,
            config.block_height == 512,
            config.overlap == 0,
            config.step == 1,
    {
        RasterBlockConfig { block_width: 512, block_height: 512, overlap: 0, step: 1 }
    }
}

/// Where a block lies in its raster, alone and with the pixels around it.
#[derive(Debug, Clone, Copy, PartialEq, Eq, Structural)]
pub struct BlockGeometry {
    pub block_col: u32,
    pub block_row: u32,
    pub col_off: u32,
    pub row_off: u32,
    pub width: u32,
    pub height: u32,
    pub col_off_raw: u32,
    pub row_off_raw: u32,
    pub width_raw: u32,
    pub height_raw: u32,
}

/// A block of a raster with its samples.
pub struct RasterBlock<T> {
    pub geometry: BlockGeometry,
    pub data: Vec<T>,
}

/// Walks the blocks of a raster, row by row.
pub struct RasterBlockIterator {
    pub ifd: IfdInfo,
    pub config: RasterBlockConfig,
    pub blocks_x: u32,
    pub blocks_y: u32,
    pub current_block: u32,
    pub bands: usize,
}

/// The start, along one axis, of what is read for a block.
pub open spec fn raw_start(off: int, overlap: int) -> int {
    if off >= overlap {
        off - overlap
    } else {
        0
    }
}

/// The length, along one axis, of a block that starts at `off`.
pub open spec fn block_len(size: int, block: int, off: int) -> int {
    raster_load::min_int(block, size - off)
}

/// The length, along one axis, of what is read for a block that starts at `off`.
pub open spec fn raw_len(size: int, block: int, off: int, overlap: int) -> int {
    raster_load::min_int(
        block_len(size, block, off) + 2 * overlap,
        size - raw_start(off, overlap),
    )
}

impl RasterBlockIterator {
    /// The raster can be cut into blocks of this size.
    pub open spec fn cuts(ifd: IfdInfo, config: RasterBlockConfig) -> bool {
        &&& config.block_width >= 1
        &&& config.block_height >= 1
        &&& ifd.width + config.block_width <= u32::MAX
        &&& ifd.height + config.block_height <= u32::MAX
        &&& block_len(ifd.width as int, config.block_width as int, 0) + 2 * config.overlap
            <= u32::MAX
        &&& block_len(ifd.height as int, config.block_height as int, 0) + 2 * config.overlap
            <= u32::MAX
        &&& raster_load::ceil_div(ifd.width as int, config.block_width as int)
            * raster_load::ceil_div(ifd.height as int, config.block_height as int) <= u32::MAX
    }

    /// The number of blocks.
    pub open spec fn total(self) -> int {
        self.blocks_x * self.blocks_y
    }

    pub open spec fn wf(self) -> bool {
        &&& Self::cuts(self.ifd, self.config)
        &&& self.blocks_x == raster_load::ceil_div(
            self.ifd.width as int,
            self.config.block_width as int,
        )
        &&& self.blocks_y == raster_load::ceil_div(
            self.ifd.height as int,
            self.config.block_height as int,
        )
        &&& self.current_block <= self.total()
    }

    /// Where block `k` lies.
    pub open spec fn block(self, k: int) -> BlockGeometry {
        let col = k % (self.blocks_x as int);
        let row = k / (self.blocks_x as int);
        let x = col * self.config.block_width;
        let y = row * self.config.block_height;
        let w = self.ifd.width as int;
        let h = self.ifd.height as int;
        let overlap = self.config.overlap as int;
        BlockGeometry {
            block_col: col as u32,
            block_row: row as u32,
            col_off: x as u32,
            row_off: y as u32,
            width: block_len(w, self.config.block_width as int, x) as u32,
            height: block_len(h, self.config.block_height as int, y) as u32,
            col_off_raw: raw_start(x, overlap) as u32,
            row_off_raw: raw_start(y, overlap) as u32,
            width_raw: raw_len(w, self.config.block_width as int, x, overlap) as u32,
            height_raw: raw_len(h, self.config.block_height as int, y, overlap) as u32,
        }
    }

    /// Starts at the first block.
    pub fn new(ifd: IfdInfo, config: RasterBlockConfig, bands: usize) -> (it: Self)
        requires
            Self::cuts(ifd, config),
        ensures
            it.wf(),
            it.ifd == ifd,
            it.config == config,
            it.bands == bands,
            it.current_block == 0,
    {
        let blocks_x: u32 = (ifd.width + config.block_width - 1) / config.block_width;
        let blocks_y: u32 = (ifd.height + config.block_height - 1) / config.block_height;
        proof {
            assert(0 <= blocks_x * blocks_y) by (nonlinear_arith)
                requires
                    blocks_x >= 0,
                    blocks_y >= 0,
            ;
        }
        RasterBlockIterator { ifd, config, blocks_x, blocks_y, current_block: 0, bands }
    }

    /// Where the current block lies, or `None` behind the last one.
    pub fn geometry(&self) -> (g: Option<BlockGeometry>)
        requires
            self.wf(),
        ensures
            g == (if self.current_block < self.total() {
                Some(self.block(self.current_block as int))
            } else {
                None
            }),
    {
        proof {
            assert(0 <= self.blocks_x * self.blocks_y) by (nonlinear_arith)
                requires
                    self.blocks_x >= 0,
                    self.blocks_y >= 0,
            ;
        }
        if self.current_block >= self.blocks_x * self.blocks_y {
            return None;
        }
        proof {
            lemma_block_starts(*self, self.current_block as int);
        }
        let block_col: u32 = self.current_block % self.blocks_x;
        let block_row: u32 = self.current_block / self.blocks_x;
        let col_off: u32 = block_col * self.config.block_width;
        let row_off: u32 = block_row * self.config.block_height;
        let left_w: u32 = self.ifd.width - col_off;
        let left_h: u32 = self.ifd.height - row_off;
        let width: u32 = if self.config.block_width <= left_w {
            self.config.block_width
        } else {
            left_w
        };
        let height: u32 = if self.config.block_height <= left_h {
            self.config.block_height
        } else {
            left_h
        };
        let overlap: u32 = self.config.overlap;
        let col_off_raw: u32 = col_off.saturating_sub(overlap);
        let row_off_raw: u32 = row_off.saturating_sub(overlap);
        let raw_w: u32 = self.ifd.width - col_off_raw;
        let raw_h: u32 = self.ifd.height - row_off_raw;
        let width_raw: u32 = if width + overlap * 2 <= raw_w {
            width + overlap * 2
        } else {
            raw_w
        };
        let height_raw: u32 = if height + overlap * 2 <= raw_h {
            height + overlap * 2
        } else {
            raw_h
        };
        Some(
            BlockGeometry {
                block_col,
                block_row,
                col_off,
                row_off,
                width,
                height,
                col_off_raw,
                row_off_raw,
                width_raw,
                height_raw,
            },
        )
    }

    /// The current block with the samples that were read for it, and goes to the next
    /// one. Where the samples could not be read, the error is given back and the block
    /// stays the current one. Behind the last block there is nothing.
    pub fn next_block<T>(&mut self, read: Result<Vec<T>, String>) -> (r: Option<
        Result<RasterBlock<T>, String>,
    >)
        requires
            old(self).wf(),
        ensures
            final(self).wf(),
            final(self).ifd == old(self).ifd,
            final(self).config == old(self).config,
            final(self).bands == old(self).bands,
            r is None <==> old(self).current_block >= old(self).total(),
            r is None ==> final(self).current_block == old(self).current_block,
            r is Some && read is Err ==> r->Some_0 == Err::<RasterBlock<T>, String>(read->Err_0)
                && final(self).current_block == old(self).current_block,
            r is Some && read is Ok ==> {
                &&& r->Some_0 is Ok
                &&& r->Some_0->Ok_0.geometry == old(self).block(old(self).current_block as int)
                &&& r->Some_0->Ok_0.data@ == read->Ok_0@
                &&& final(self).current_block == old(self).current_block + 1
            },
    {
        match self.geometry() {
            None => None,
            Some(geometry) => match read {
                Ok(data) => {
                    self.current_block = self.current_block + 1;
                    Some(Ok(RasterBlock { geometry, data }))
                },
                Err(e) => Some(Err(e)),
            },
        }
    }
}

/// A block that exists starts inside of the raster.
proof fn lemma_block_starts(it: RasterBlockIterator, k: int)
    requires
        it.wf(),
        0 <= k < it.total(),
    ensures
        it.blocks_x > 0,
        0 <= k % (it.blocks_x as int) < it.blocks_x,
        0 <= k / (it.blocks_x as int) < it.blocks_y,
        0 <= (k % (it.blocks_x as int)) * it.config.block_width < it.ifd.width,
        0 <= (k / (it.blocks_x as int)) * it.config.block_height < it.ifd.height,
{
    assert(it.blocks_x * it.blocks_y == it.blocks_y * it.blocks_x) by (nonlinear_arith);
    raster_load::lemma_split_index(k, it.blocks_y as int, it.blocks_x as int);
    lemma_start_inside(
        k % (it.blocks_x as int),
        it.ifd.width as int,
        it.config.block_width as int,
    );
    lemma_start_inside(
        k / (it.blocks_x as int),
        it.ifd.height as int,
        it.config.block_height as int,
    );
}

proof fn lemma_start_inside(i: int, size: int, block: int)
    requires
        0 <= i < raster_load::ceil_div(size, block),
        block >= 1,
    ensures
        0 <= i * block < size,
{
    let n = raster_load::ceil_div(size, block);
    vstd::arithmetic::div_mod::lemma_fundamental_div_mod(size + block - 1, block);
    vstd::arithmetic::div_mod::lemma_mod_bound(size + block - 1, block);
    assert(0 <= i * block && i * block + block <= n * block) by (nonlinear_arith)
        requires
            0 <= i < n,
            block >= 1,
    ;
    assert(n * block == block * n) by (nonlinear_arith);
}

/// The pixel in row `r` and column `c` lies in a block.
pub open spec fn in_block(g: BlockGeometry, r: int, c: int) -> bool {
    g.col_off <= c < g.col_off + g.width && g.row_off <= r < g.row_off + g.height
}

/// The number of the block with the pixel in row `r` and column `c`.
pub open spec fn block_of(it: RasterBlockIterator, r: int, c: int) -> int {
    (r / (it.config.block_height as int)) * it.blocks_x + c / (it.config.block_width as int)
}

/// Every pixel of a raster lies in one of its blocks, and in no other.
pub proof fn law_blocks_tile_the_raster(it: RasterBlockIterator, r: int, c: int)
    requires
        it.wf(),
        0 <= r < it.ifd.height,
        0 <= c < it.ifd.width,
    ensures
        0 <= block_of(it, r, c) < it.total(),
        in_block(it.block(block_of(it, r, c)), r, c),
        forall|k: int|
            0 <= k < it.total() && in_block(#[trigger] it.block(k), r, c) ==> k == block_of(
                it,
                r,
                c,
            ),
{
    let bw = it.config.block_width as int;
    let bh = it.config.block_height as int;
    let nx = it.blocks_x as int;
    let ny = it.blocks_y as int;
    let x = c / bw;
    let y = r / bh;
    raster_load::lemma_inside(c, it.ifd.width as int, bw);
    raster_load::lemma_inside(r, it.ifd.height as int, bh);
    let k = y * nx + x;
    assert(0 <= k < nx * ny) by (nonlinear_arith)
        requires
            k == y * nx + x,
            0 <= x < nx,
            0 <= y < ny,
    ;
    vstd::arithmetic::div_mod::lemma_fundamental_div_mod_converse(k, nx, y, x);
    lemma_block_starts(it, k);
    vstd::arithmetic::div_mod::lemma_fundamental_div_mod(c, bw);
    vstd::arithmetic::div_mod::lemma_mod_bound(c, bw);
    vstd::arithmetic::div_mod::lemma_fundamental_div_mod(r, bh);
    vstd::arithmetic::div_mod::lemma_mod_bound(r, bh);
    assert(bw * x == x * bw) by (nonlinear_arith);
    assert(bh * y == y * bh) by (nonlinear_arith);
    assert forall|j: int|
        0 <= j < it.total() && in_block(#[trigger] it.block(j), r, c) implies j == k by {
        lemma_block_starts(it, j);
        let jx = j % nx;
        let jy = j / nx;
        vstd::arithmetic::div_mod::lemma_fundamental_div_mod(j, nx);
        vstd::arithmetic::div_mod::lemma_fundamental_div_mod_converse(c, bw, jx, c - jx * bw);
        vstd::arithmetic::div_mod::lemma_fundamental_div_mod_converse(r, bh, jy, r - jy * bh);
        assert(nx * jy == jy * nx) by (nonlinear_arith);
    }
}

/// A tile of a raster that is asked for.
#[derive(Debug, Clone)]
pub struct TileRequest {
    pub path: String,
    pub z: u32,
    pub x: u32,
    pub y: u32,
}

/// A tile of vector data that is asked for.
#[derive(Debug, Clone)]
pub struct VectorTileRequest {
    pub path: String,
    pub z: u32,
    pub x: u32,
    pub y: u32,
}

/// What is told of a source of tiles. `F` is the type of coordinates.
#[derive(Debug, Clone)]
pub struct TileInfo<F> {
    pub data_type: String,
    pub min_zoom: u32,
    pub max_zoom: u32,
    pub crs: String,
    pub extent: [F; 4],
    pub native_crs: String,
    pub native_extent: [F; 4],
}

/// A file that is served as tiles.
#[derive(Debug, Clone)]
pub struct GeoFileInfo<F> {
    pub name: String,
    pub path: String,
    pub data_type: String,
    pub info: TileInfo<F>,
}

/// A raster of which everything but the samples is in memory. `F` is the type of
/// samples and coordinates.
pub struct CachedRaster<F> {
    pub file_path: String,
    pub width: u32,
    pub height: u32,
    pub bands: usize,
    pub geo_transform: [F; 6],
    pub no_data: Option<F>,
    pub stats: BandStats<F>,
    pub crs_type: String,
    pub data_type: String,
    pub geo_key: GeoKeyInfo,
    pub wgs84_corners: [(F, F); 4],
    pub native_corners: [(F, F); 4],
    pub ifds: Vec<IfdInfo>,
    pub ovr_path: Option<String>,
    pub max_zoom: u32,
}

/// What the file of a raster says of it.
pub struct RasterFileInfo<F> {
    pub width: u32,
    pub height: u32,
    pub bands: usize,
    pub data_type: String,
    pub no_data: Option<F>,
    pub interleave: InterleaveType,
    pub chunk_count: u32,
    pub chunk_type: ChunkType,
    pub chunk_width: u32,
    pub chunk_length: u32,
    pub chunks_per_row: u32,
    pub geo_transform: [F; 6],
    pub crs_type: String,
    pub extent_wgs84: Option<[F; 4]>,
    pub max_zoom: u32,
    pub wgs84_corners: [(F, F); 4],
    pub native_corners: [(F, F); 4],
}

/// How far a raster has been read.
pub enum RasterLoadProgress<F> {
    FileOpened {
        width: u32,
        height: u32,
        bands: usize,
        data_type: String,
        no_data: Option<F>,
        interleave: String,
        chunk_count: u32,
    },
    GeoInfoReady {
        crs_type: String,
        geo_transform: [F; 6],
        extent_wgs84: Option<[F; 4]>,
        max_zoom: u32,
        wgs84_corners: [(F, F); 4],
        native_corners: [(F, F); 4],
    },
    StatsProgress { chunks_done: u32, chunk_count: u32 },
    StatsComplete {
        min_values: Vec<F>,
        max_values: Vec<F>,
        mean_values: Vec<F>,
        std_dev_values: Vec<F>,
        percentile_bounds: Vec<(F, F)>,
    },
    OverviewsReady { total_ifds: usize, ovr_path: Option<String> },
    Ready,
}

/// A block starts as many blocks from the corner of its raster as its column and its row say,
/// and is as large as blocks are, or as far as the raster goes. With it are read the pixels
/// around it, as far as the raster goes: on the side of the corner as many as the overlap, and
/// as many more in all as twice the overlap.
pub proof fn law_blocks_have_their_size(it: &RasterBlockIterator, g: Option<BlockGeometry>)
    requires
        call_ensures(RasterBlockIterator::geometry, (it,), g),
        it.wf(),
    ensures
        g is Some <==> it.current_block < it.blocks_x * it.blocks_y,
        g matches Some(b) ==> {
            &&& it.current_block == b.block_row * it.blocks_x + b.block_col
            &&& b.block_col < it.blocks_x
            &&& b.col_off == b.block_col * it.config.block_width
            &&& b.row_off == b.block_row * it.config.block_height
            &&& b.width == it.config.block_width || b.col_off + b.width == it.ifd.width
            &&& b.height == it.config.block_height || b.row_off + b.height == it.ifd.height
            &&& 1 <= b.width <= it.config.block_width && b.col_off + b.width <= it.ifd.width
            &&& 1 <= b.height <= it.config.block_height && b.row_off + b.height <= it.ifd.height
            &&& b.col_off_raw + it.config.overlap == b.col_off || (b.col_off < it.config.overlap
                && b.col_off_raw == 0)
            &&& b.row_off_raw + it.config.overlap == b.row_off || (b.row_off < it.config.overlap
                && b.row_off_raw == 0)
            &&& b.width_raw == b.width + 2 * it.config.overlap || b.col_off_raw + b.width_raw
                == it.ifd.width
            &&& b.height_raw == b.height + 2 * it.config.overlap || b.row_off_raw + b.height_raw
                == it.ifd.height
            &&& b.width_raw <= b.width + 2 * it.config.overlap
            &&& b.height_raw <= b.height + 2 * it.config.overlap
            &&& b.col_off_raw + b.width_raw <= it.ifd.width
            &&& b.row_off_raw + b.height_raw <= it.ifd.height
        },
{
    let k = it.current_block as int;
    if k < it.total() {
        lemma_block_starts(*it, k);
        vstd::arithmetic::div_mod::lemma_fundamental_div_mod(k, it.blocks_x as int);
        let (row, col) = (k / (it.blocks_x as int), k % (it.blocks_x as int));
        assert(it.blocks_x * row == row * it.blocks_x) by (nonlinear_arith);
    }
}

/// A raster has as many blocks beside and below each other as cover it.
pub proof fn law_blocks_cover_the_raster(
    ifd: IfdInfo,
    config: RasterBlockConfig,
    bands: usize,
    it: RasterBlockIterator,
)
    requires
        call_ensures(RasterBlockIterator::new, (ifd, config, bands), it),
        config.block_width >= 1,
        config.block_height >= 1,
    ensures
        it.current_block == 0,
        ifd.width <= it.blocks_x * config.block_width < ifd.width + config.block_width,
        ifd.height <= it.blocks_y * config.block_height < ifd.height + config.block_height,
{
    raster_load::law_parts_are_rounded_up(ifd.width as int, config.block_width as int);
    raster_load::law_parts_are_rounded_up(ifd.height as int, config.block_height as int);
}

} // verus!
