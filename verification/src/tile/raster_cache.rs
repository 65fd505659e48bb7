//! Rasters in memory: the cache of them, and what is found out when one is read.

use crate::double::{is_less, rank_of, INFINITY_BITS, NEG_INFINITY_BITS};
use crate::order::stable_order;
use crate::paths::with_extension;
use crate::raster::is_nodata;
use crate::text::{concat2, str_eq};
use crate::tile::raster_load;
use crate::tile::raster_load::is_geographic;
use crate::tile::types::{ChunkType, IfdInfo, InterleaveType};
use vstd::prelude::*;

verus! {

// ─── The cache ───

/// The rasters that the cache holds, unless another limit is set.
pub const RASTER_CACHE_MAX_ENTRIES: usize = 50;

/// The cache of rasters: when it is full, the raster that was not used for the longest
/// time leaves first.
pub struct RasterCacheInner<V> {
    /// The rasters by their paths, the one that was used last at the end.
    rows: Vec<(String, V)>,
    max_entries: usize,
}

/// A path has a row.
pub open spec fn has_row<V>(rows: Seq<(Seq<char>, V)>, path: Seq<char>) -> bool {
    exists|i: int| 0 <= i < rows.len() && (#[trigger] rows[i]).0 == path
}

/// The row of a path.
pub open spec fn row_of<V>(rows: Seq<(Seq<char>, V)>, path: Seq<char>) -> int {
    choose|i: int| 0 <= i < rows.len() && (#[trigger] rows[i]).0 == path
}

/// No path has two rows.
pub open spec fn rows_distinct<V>(rows: Seq<(Seq<char>, V)>) -> bool {
    forall|i: int, j: int|
        0 <= i < rows.len() && 0 <= j < rows.len() && i != j ==> (#[trigger] rows[i]).0 != (
        #[trigger] rows[j]).0
}

/// The rows that stay when one more is to fit below a limit: the last ones.
pub open spec fn rows_kept<V>(rows: Seq<(Seq<char>, V)>, max: int) -> Seq<(Seq<char>, V)> {
    if rows.len() < max {
        rows
    } else if max <= 0 {
        Seq::empty()
    } else {
        rows.skip(rows.len() - max + 1)
    }
}

impl<V> RasterCacheInner<V> {
    /// The rasters by their paths, the one that was used last at the end.
    pub closed spec fn entries(self) -> Seq<(Seq<char>, V)> {
        Seq::new(self.rows@.len(), |i: int| (self.rows@[i].0@, self.rows@[i].1))
    }

    /// The number of rasters that the cache may hold.
    pub closed spec fn limit(self) -> usize {
        self.max_entries
    }

    /// No raster is held twice.
    pub open spec fn wf(self) -> bool {
        rows_distinct(self.entries())
    }

    /// An empty cache for a number of rasters.
    pub fn new(max_entries: usize) -> (cache: Self)
        ensures
            cache.wf(),
            cache.entries() == Seq::<(Seq<char>, V)>::empty(),
            cache.limit() == max_entries,
    {
        let cache = RasterCacheInner { rows: Vec::new(), max_entries };
        assert(cache.entries() =~= Seq::<(Seq<char>, V)>::empty());
        cache
    }

    fn find(&self, path: &str) -> (place: Option<usize>)
        requires
            self.wf(),
        ensures
            place is Some <==> has_row(self.entries(), path@),
            place is Some ==> place->Some_0 < self.rows@.len() && place->Some_0 == row_of(
                self.entries(),
                path@,
            ),
    {
        for i in 0..self.rows.len()
            invariant
                self.wf(),
                forall|j: int| 0 <= j < i ==> (#[trigger] self.entries()[j]).0 != path@,
        {
            if str_eq(self.rows[i].0.as_str(), path) {
                assert(self.entries()[i as int].0 == path@);
                return Some(i);
            }
        }
        None
    }

    /// The raster at a path. It is then the one that was used last.
    pub fn get(&mut self, path: &str) -> (raster: Option<&V>)
        requires
            old(self).wf(),
        ensures
            final(self).wf(),
            final(self).limit() == old(self).limit(),
            raster is Some <==> has_row(old(self).entries(), path@),
            raster is Some ==> ({
                let i = row_of(old(self).entries(), path@);
                &&& *raster->Some_0 == old(self).entries()[i].1
                &&& final(self).entries() == old(self).entries().remove(i).push(
                    old(self).entries()[i],
                )
            }),
            raster is None ==> final(self).entries() == old(self).entries(),
    {
        let ghost before = self.entries();
        match self.find(path) {
            Some(i) => {
                let row: (String, V) = self.rows.remove(i);
                self.rows.push(row);
                proof {
                    assert(self.entries() =~= before.remove(i as int).push(before[i as int]));
                    assert forall|a: int, b: int|
                        0 <= a < self.entries().len() && 0 <= b < self.entries().len() && a
                            != b implies (#[trigger] self.entries()[a]).0 != (
                    #[trigger] self.entries()[b]).0 by {
                        let pa = if a == before.len() - 1 {
                            i as int
                        } else if a < i {
                            a
                        } else {
                            a + 1
                        };
                        let pb = if b == before.len() - 1 {
                            i as int
                        } else if b < i {
                            b
                        } else {
                            b + 1
                        };
                        assert(self.entries()[a] == before[pa]);
                        assert(self.entries()[b] == before[pb]);
                    }
                }
                let last: usize = self.rows.len() - 1;
                Some(&self.rows[last].1)
            },
            None => None,
        }
    }

    /// Takes in a raster. Where the path has one already, that one stays; else rasters
    /// leave, the oldest first, until there is room.
    pub fn insert(&mut self, path: &str, raster: V)
        requires
            old(self).wf(),
        ensures
            final(self).wf(),
            final(self).limit() == old(self).limit(),
            has_row(old(self).entries(), path@) ==> final(self).entries() == old(self).entries(),
            !has_row(old(self).entries(), path@) ==> final(self).entries() == rows_kept(
                old(self).entries(),
                old(self).limit() as int,
            ).push((path@, raster)),
    {
        if self.find(path).is_some() {
            return ;
        }
        let ghost before = self.entries();
        let ghost mut gone: int = 0;
        assert(before.skip(0) =~= before);
        while self.rows.len() >= self.max_entries && self.rows.len() > 0
            invariant
                self.limit() == old(self).limit(),
                before == old(self).entries(),
                !has_row(before, path@),
                rows_distinct(before),
                0 <= gone <= before.len(),
                self.entries() == before.skip(gone),
                gone > 0 ==> before.len() - gone + 1 >= self.limit(),
            decreases self.rows@.len(),
        {
            let ghost now = self.entries();
            let _oldest: (String, V) = self.rows.remove(0);
            proof {
                assert(self.entries() =~= now.drop_first());
                assert(before.skip(gone).drop_first() =~= before.skip(gone + 1));
                gone = gone + 1;
            }
        }
        proof {
            assert(self.rows@.len() == self.entries().len());
            assert(self.entries() =~= rows_kept(before, self.limit() as int));
        }
        let ghost kept = self.entries();
        let key: String = path.to_owned();
        self.rows.push((key, raster));
        proof {
            assert(self.entries() =~= kept.push((path@, raster)));
            assert forall|a: int, b: int|
                0 <= a < self.entries().len() && 0 <= b < self.entries().len() && a != b implies (
            #[trigger] self.entries()[a]).0 != (#[trigger] self.entries()[b]).0 by {
                if a < kept.len() {
                    assert(self.entries()[a] == before[a + gone]);
                }
                if b < kept.len() {
                    assert(self.entries()[b] == before[b + gone]);
                }
            }
        }
    }

    /// The number of rasters.
    pub fn len(&self) -> (n: usize)
        ensures
            n == self.entries().len(),
    {
        self.rows.len()
    }
}

/// Removes every raster from a cache.
pub fn clear_raster_memory_cache<V>(cache: &mut RasterCacheInner<V>)
    ensures
        final(cache).wf(),
        final(cache).entries() == Seq::<(Seq<char>, V)>::empty(),
        final(cache).limit() == old(cache).limit(),
{
    cache.rows.clear();
    assert(cache.entries() =~= Seq::<(Seq<char>, V)>::empty());
}

/// A raster that was taken in is there, and a cache for at least one raster holds no
/// more than its limit.
pub proof fn law_raster_insert<V>(
    before: RasterCacheInner<V>,
    after: RasterCacheInner<V>,
    path: Seq<char>,
    raster: V,
)
    requires
        before.wf(),
        after.wf(),
        !has_row(before.entries(), path),
        after.entries() == rows_kept(before.entries(), before.limit() as int).push((path, raster)),
    ensures
        has_row(after.entries(), path),
        after.entries()[row_of(after.entries(), path)].1 == raster,
        before.limit() >= 1 ==> after.entries().len() <= before.limit(),
{
    let rows = after.entries();
    assert(rows[rows.len() - 1].0 == path);
    let i = row_of(rows, path);
    assert(rows[i].0 == path);
}

// ─── The size of the cache ───

/// The allocated lengths of the parts of a raster in memory.
#[derive(Debug, Clone, Copy)]
pub struct RasterSizes {
    /// The bytes of the raster without its parts.
    pub fixed: u64,
    pub file_path: u64,
    pub min_values: u64,
    pub max_values: u64,
    pub mean_values: u64,
    pub std_dev_values: u64,
    /// The bytes of all descriptions of images.
    pub ifds: u64,
    pub crs_type: u64,
}

/// The bytes of a double.
pub const DOUBLE_BYTES: u64 = 8;

/// The least of a number and the greatest that fits.
pub open spec fn capped(n: int) -> int {
    if n > u64::MAX {
        u64::MAX as int
    } else {
        n
    }
}

/// The bytes of a raster in memory, with two machine words for those who share it.
pub open spec fn raster_bytes(s: RasterSizes) -> int {
    capped(
        s.fixed + s.file_path + capped(s.min_values * DOUBLE_BYTES) + capped(
            s.max_values * DOUBLE_BYTES,
        ) + capped(s.mean_values * DOUBLE_BYTES) + capped(s.std_dev_values * DOUBLE_BYTES) + s.ifds
            + s.crs_type + 2 * vstd::layout::size_of::<usize>(),
    )
}

fn capped_product(a: u64, b: u64) -> (r: u64)
    ensures
        r == capped(a * b),
{
    match a.checked_mul(b) {
        Some(r) => r,
        None => u64::MAX,
    }
}

/// Estimates the bytes of a raster in memory.
pub fn estimate_raster_size_bytes(s: &RasterSizes) -> (total: u64)
    ensures
        total == raster_bytes(*s),
{
    let mut total: u64 = s.fixed;
    total = total.saturating_add(s.file_path);
    total = total.saturating_add(capped_product(s.min_values, DOUBLE_BYTES));
    total = total.saturating_add(capped_product(s.max_values, DOUBLE_BYTES));
    total = total.saturating_add(capped_product(s.mean_values, DOUBLE_BYTES));
    total = total.saturating_add(capped_product(s.std_dev_values, DOUBLE_BYTES));
    total = total.saturating_add(s.ifds);
    total = total.saturating_add(s.crs_type);
    proof {
        broadcast use vstd::layout::layout_of_primitives;

    }
    total.saturating_add(2 * core::mem::size_of::<usize>() as u64)
}

/// The bytes of paths and rasters together.
pub open spec fn cache_bytes(rows: Seq<(u64, RasterSizes)>) -> int
    decreases rows.len(),
{
    if rows.len() == 0 {
        0
    } else {
        cache_bytes(rows.drop_last()) + rows.last().0 + raster_bytes(rows.last().1)
    }
}

/// A row of the sizes of a cache: `size` gives the bytes of a path and the lengths of its
/// raster.
pub open spec fn is_sized_row<V, S: Fn(&String, &V) -> (u64, RasterSizes)>(
    entry: (Seq<char>, V),
    size: S,
    row: (u64, RasterSizes),
) -> bool {
    exists|path: &String| #[trigger]
        size.ensures((path, &entry.1), row) && path@ == entry.0
}

/// The sizes of the rows of a cache.
pub open spec fn are_sized<V, S: Fn(&String, &V) -> (u64, RasterSizes)>(
    entries: Seq<(Seq<char>, V)>,
    size: S,
    rows: Seq<(u64, RasterSizes)>,
) -> bool {
    &&& rows.len() == entries.len()
    &&& forall|i: int| 0 <= i < rows.len() ==> is_sized_row(entries[i], size, #[trigger] rows[i])
}

/// The bytes of a cache. `size` gives those of a path and the lengths of its raster.
pub fn raster_memory_cache_size_bytes<V, S: Fn(&String, &V) -> (u64, RasterSizes)>(
    cache: &RasterCacheInner<V>,
    size: S,
) -> (total: u64)
    requires
        forall|path: &String, raster: &V| size.requires((path, raster)),
    ensures
        exists|rows: Seq<(u64, RasterSizes)>| #[trigger]
            are_sized(cache.entries(), size, rows) && total == capped(cache_bytes(rows)),
{
    let ghost mut rows: Seq<(u64, RasterSizes)> = Seq::empty();
    let mut total: u64 = 0;
    for i in 0..cache.rows.len()
        invariant
            forall|path: &String, raster: &V| size.requires((path, raster)),
            rows.len() == i,
            forall|k: int|
                0 <= k < i ==> is_sized_row(cache.entries()[k], size, #[trigger] rows[k]),
            total == capped(cache_bytes(rows)),
            cache_bytes(rows) >= 0,
    {
        let entry: &(String, V) = &cache.rows[i];
        let row: (u64, RasterSizes) = size(&entry.0, &entry.1);
        let ghost before = rows;
        proof {
            assert(cache.entries()[i as int] == (entry.0@, entry.1));
            assert(size.ensures((&entry.0, &cache.entries()[i as int].1), row));
            rows = rows.push(row);
            assert(rows.drop_last() =~= before);
            assert(is_sized_row(cache.entries()[i as int], size, row));
        }
        total = total.saturating_add(row.0).saturating_add(estimate_raster_size_bytes(&row.1));
    }
    assert(are_sized(cache.entries(), size, rows));
    total
}

/// `size` gives the same for the same path and raster.
pub open spec fn is_size<V, S: Fn(&String, &V) -> (u64, RasterSizes)>(size: S) -> bool {
    forall|p: &String, q: &String, v: &V, a: (u64, RasterSizes), b: (u64, RasterSizes)|
        p@ == q@ && #[trigger] size.ensures((p, v), a) && #[trigger] size.ensures((q, v), b) ==> a
            == b
}

proof fn lemma_bytes_push(rows: Seq<(u64, RasterSizes)>, row: (u64, RasterSizes))
    ensures
        cache_bytes(rows.push(row)) == cache_bytes(rows) + row.0 + raster_bytes(row.1),
{
    assert(rows.push(row).drop_last() =~= rows);
}

proof fn lemma_bytes_remove(rows: Seq<(u64, RasterSizes)>, i: int)
    requires
        0 <= i < rows.len(),
    ensures
        cache_bytes(rows.remove(i)) + rows[i].0 + raster_bytes(rows[i].1) == cache_bytes(rows),
    decreases rows.len(),
{
    if i < rows.len() - 1 {
        lemma_bytes_remove(rows.drop_last(), i);
        assert(rows.remove(i).drop_last() =~= rows.drop_last().remove(i));
        assert(rows.remove(i).last() == rows.last());
    } else {
        assert(rows.remove(i) =~= rows.drop_last());
    }
}

/// Using a raster does not change the bytes of a cache.
pub proof fn law_size_survives_use<V, S: Fn(&String, &V) -> (u64, RasterSizes)>(
    before: RasterCacheInner<V>,
    after: RasterCacheInner<V>,
    path: Seq<char>,
    size: S,
    rows: Seq<(u64, RasterSizes)>,
    rows_after: Seq<(u64, RasterSizes)>,
)
    requires
        before.wf(),
        has_row(before.entries(), path),
        after.entries() == before.entries().remove(row_of(before.entries(), path)).push(
            before.entries()[row_of(before.entries(), path)],
        ),
        is_size(size),
        are_sized(before.entries(), size, rows),
        are_sized(after.entries(), size, rows_after),
    ensures
        cache_bytes(rows_after) == cache_bytes(rows),
{
    let i = row_of(before.entries(), path);
    let moved = rows.remove(i).push(rows[i]);
    assert forall|k: int| 0 <= k < moved.len() implies #[trigger] moved[k] == rows_after[k] by {
        let j = if k == moved.len() - 1 {
            i
        } else if k < i {
            k
        } else {
            k + 1
        };
        assert(moved[k] == rows[j]);
        assert(after.entries()[k] == before.entries()[j]);
        assert(is_sized_row(before.entries()[j], size, rows[j]));
        assert(is_sized_row(after.entries()[k], size, rows_after[k]));
    }
    assert(moved =~= rows_after);
    lemma_bytes_remove(rows, i);
    lemma_bytes_push(rows.remove(i), rows[i]);
}

/// A cache with a raster has bytes.
pub proof fn law_cached_raster_counts<V, S: Fn(&String, &V) -> (u64, RasterSizes)>(
    cache: RasterCacheInner<V>,
    size: S,
    rows: Seq<(u64, RasterSizes)>,
)
    requires
        cache.entries().len() > 0,
        are_sized(cache.entries(), size, rows),
    ensures
        capped(cache_bytes(rows)) > 0,
{
    lemma_bytes_are_positive(rows);
}

proof fn lemma_bytes_are_positive(rows: Seq<(u64, RasterSizes)>)
    ensures
        cache_bytes(rows) >= rows.len(),
    decreases rows.len(),
{
    broadcast use vstd::layout::layout_of_primitives;

    if rows.len() > 0 {
        lemma_bytes_are_positive(rows.drop_last());
        assert(raster_bytes(rows.last().1) >= 1);
    }
}

/// A cache that was cleared has no bytes.
pub proof fn law_cleared_cache_is_empty<V, S: Fn(&String, &V) -> (u64, RasterSizes)>(
    cache: RasterCacheInner<V>,
    size: S,
    rows: Seq<(u64, RasterSizes)>,
)
    requires
        cache.entries() == Seq::<(Seq<char>, V)>::empty(),
        are_sized(cache.entries(), size, rows),
    ensures
        capped(cache_bytes(rows)) == 0,
{
}

// ─── What a file says of a raster ───

/// The files where the overviews of a raster can be.
pub fn ovr_candidates(tif_path: &str) -> (paths: (String, String))
    ensures
        paths.0@ == tif_path@ + ".ovr"@,
        paths.1@ == crate::paths::replaced_extension(tif_path@, "ovr"@),
{
    (concat2(tif_path, ".ovr"), with_extension(tif_path, "ovr"))
}

/// The file with the overviews of a raster, told which of the two candidates exists. The
/// one that adds an extension comes before the one that replaces it.
pub fn find_ovr_file(tif_path: &str, added_exists: bool, replaced_exists: bool) -> (path: Option<
    String,
>)
    ensures
        added_exists ==> path is Some && path->Some_0@ == tif_path@ + ".ovr"@,
        !added_exists && replaced_exists ==> path is Some && path->Some_0@
            == crate::paths::replaced_extension(tif_path@, "ovr"@),
        !added_exists && !replaced_exists ==> path is None,
{
    let (added, replaced): (String, String) = ovr_candidates(tif_path);
    if added_exists {
        Some(added)
    } else if replaced_exists {
        Some(replaced)
    } else {
        None
    }
}

/// The transform of a raster from the values of its world file.
pub open spec fn world_file_transform<F>(v: Seq<F>) -> Seq<F> {
    seq![v[4], v[0], v[1], v[5], v[2], v[3]]
}

/// The transform of a raster: from a world file with six values, else from a tie point
/// and a scale, else one pixel to a unit. `negate` changes the sign of a value.
pub fn read_geo_transform_tile<F: Copy, N: Fn(F) -> F>(
    world_file: Option<&Vec<F>>,
    tiepoint: Option<&Vec<F>>,
    scale: Option<&Vec<F>>,
    zero: F,
    one: F,
    negate: N,
) -> (gt: [F; 6])
    requires
        forall|v: F| negate.requires((v,)),
    ensures
        ({
            let world = world_file is Some && world_file->Some_0@.len() == 6;
            let tied = tiepoint is Some && scale is Some && tiepoint->Some_0@.len() >= 6
                && scale->Some_0@.len() >= 3;
            &&& world ==> gt@ == world_file_transform(world_file->Some_0@)
            &&& !world && tied ==> {
                &&& gt@[0] == tiepoint->Some_0@[3]
                &&& gt@[1] == scale->Some_0@[0]
                &&& gt@[2] == zero
                &&& gt@[3] == tiepoint->Some_0@[4]
                &&& gt@[4] == zero
                &&& negate.ensures((scale->Some_0@[1],), gt@[5])
            }
            &&& !world && !tied ==> {
                &&& gt@[0] == zero
                &&& gt@[1] == one
                &&& gt@[2] == zero
                &&& gt@[3] == zero
                &&& gt@[4] == zero
                &&& negate.ensures((one,), gt@[5])
            }
        }),
{
    match world_file {
        Some(v) => {
            if v.len() == 6 {
                let gt: [F; 6] = [v[4], v[0], v[1], v[5], v[2], v[3]];
                assert(gt@ =~= world_file_transform(v@));
                return gt;
            }
        },
        None => {},
    }
    match (tiepoint, scale) {
        (Some(t), Some(s)) => {
            if t.len() >= 6 && s.len() >= 3 {
                let gt: [F; 6] = [t[3], s[0], zero, t[4], zero, negate(s[1])];
                return gt;
            }
        },
        _ => {},
    }
    let gt: [F; 6] = [zero, one, zero, zero, zero, negate(one)];
    gt
}

/// The chunks in a row of an image.
pub open spec fn row_chunks(chunk_type: ChunkType, width: u32, chunk_width: u32) -> int {
    match chunk_type {
        ChunkType::Strip => 1,
        ChunkType::Tile => raster_load::ceil_div(width as int, chunk_width as int),
    }
}

/// The chunks in a row of an image.
pub fn chunks_per_row(chunk_type: ChunkType, width: u32, chunk_width: u32) -> (n: u32)
    requires
        chunk_type is Tile ==> chunk_width >= 1 && width + chunk_width <= u32::MAX,
    ensures
        n == row_chunks(chunk_type, width, chunk_width),
{
    match chunk_type {
        ChunkType::Strip => 1,
        ChunkType::Tile => (width + chunk_width - 1) / chunk_width,
    }
}

/// How the bands of an image lie in its file: each in chunks of its own only where the
/// file says so.
pub open spec fn interleave_of(planar: Option<u16>) -> InterleaveType {
    if planar == Some(2u16) {
        InterleaveType::Planar
    } else {
        InterleaveType::Chunky
    }
}

/// How the bands of an image lie in its file.
pub fn interleave_from_planar(planar: Option<u16>) -> (interleave: InterleaveType)
    ensures
        interleave == interleave_of(planar),
{
    match planar {
        Some(p) => if p == 2 {
            InterleaveType::Planar
        } else {
            InterleaveType::Chunky
        },
        None => InterleaveType::Chunky,
    }
}

/// The number of bands of an image: what its file says, else the samples to a pixel of
/// its first chunk, given by the number of samples and the size of the chunk.
pub open spec fn bands_of(tag: Option<u16>, samples: int, chunk_w: int, chunk_h: int) -> int {
    match tag {
        Some(n) => n as int,
        None => if chunk_w * chunk_h > 0 && samples >= chunk_w * chunk_h {
            samples / (chunk_w * chunk_h)
        } else {
            1
        },
    }
}

/// The number of bands of an image.
pub fn band_count(tag: Option<u16>, samples: usize, chunk_w: u32, chunk_h: u32) -> (bands: usize)
    requires
        tag is None ==> chunk_w * chunk_h <= u32::MAX,
    ensures
        bands == bands_of(tag, samples as int, chunk_w as int, chunk_h as int),
{
    match tag {
        Some(n) => n as usize,
        None => {
            proof {
                assert(chunk_w * chunk_h >= 0) by (nonlinear_arith)
                    requires
                        chunk_w >= 0,
                        chunk_h >= 0,
                ;
            }
            let pixels: usize = (chunk_w * chunk_h) as usize;
            if pixels > 0 && samples >= pixels {
                samples / pixels
            } else {
                1
            }
        },
    }
}

/// The kind of a reference system, by the model type of a raster.
pub open spec fn crs_kind(model_type: Option<u16>) -> Seq<char> {
    if model_type == Some(2u16) {
        "Geographic"@
    } else if model_type == Some(1u16) {
        "Projected"@
    } else {
        "Unknown"@
    }
}

/// The kind of a reference system, by the model type of a raster.
pub fn crs_type_text(model_type: Option<u16>) -> (text: String)
    ensures
        text@ == crs_kind(model_type),
{
    match model_type {
        Some(t) => if t == 2 {
            "Geographic".to_owned()
        } else if t == 1 {
            "Projected".to_owned()
        } else {
            "Unknown".to_owned()
        },
        None => "Unknown".to_owned(),
    }
}

/// The corners of a raster in its own system: those in degrees where its system is
/// geographic or unknown, else the converted ones, or `fallback` where a corner could
/// not be converted.
pub fn native_corners<F: Copy>(
    crs_type: &str,
    degrees: [(F, F); 4],
    converted: Option<[(F, F); 4]>,
    fallback: [(F, F); 4],
) -> (corners: [(F, F); 4])
    ensures
        corners == (if crs_type@ == "Geographic"@ || crs_type@ == "Unknown"@ {
            degrees
        } else {
            match converted {
                Some(c) => c,
                None => fallback,
            }
        }),
{
    if is_geographic(crs_type) {
        degrees
    } else {
        match converted {
            Some(c) => c,
            None => fallback,
        }
    }
}

/// No raster is shown at a higher zoom level than this one on account of its resolution.
pub const MAX_ZOOM: u32 = 22;

/// The highest zoom level of a raster, from the one that its resolution asks for.
pub open spec fn capped_zoom(wanted: Option<u32>) -> u32 {
    match wanted {
        Some(w) => if w < MAX_ZOOM {
            w
        } else {
            MAX_ZOOM
        },
        None => MAX_ZOOM,
    }
}

/// The highest zoom level of a raster.
pub fn cap_zoom(wanted: Option<u32>) -> (z: u32)
    ensures
        z == capped_zoom(wanted),
{
    match wanted {
        Some(w) => if w < MAX_ZOOM {
            w
        } else {
            MAX_ZOOM
        },
        None => MAX_ZOOM,
    }
}

// ─── Statistics of the samples ───

/// Percentiles are taken from no more samples of a band than these.
pub const MAX_PERCENTILE_SAMPLES: usize = 50000;

/// Where the samples of a band lie in a chunk: one at `offset`, then every `stride`-th.
#[derive(Debug, Clone, Copy, PartialEq, Eq, Structural)]
pub struct ChunkVisit {
    pub band: usize,
    pub stride: usize,
    pub offset: usize,
}

/// The bands whose samples a chunk holds, and where. `None` says that this chunk and
/// those after it belong to no band.
pub open spec fn visits_of(
    interleave: InterleaveType,
    chunk: int,
    chunks: int,
    bands: int,
) -> Option<Seq<ChunkVisit>> {
    match interleave {
        InterleaveType::Planar => {
            let band = chunk / (chunks / bands);
            if band < bands {
                Some(seq![ChunkVisit { band: band as usize, stride: 1, offset: 0 }])
            } else {
                None
            }
        },
        InterleaveType::Chunky => Some(
            Seq::new(
                bands as nat,
                |b: int|
                    ChunkVisit { band: b as usize, stride: bands as usize, offset: b as usize },
            ),
        ),
    }
}

/// The bands whose samples a chunk holds, and where.
pub fn chunk_visits(interleave: InterleaveType, chunk: u32, chunks: u32, bands: usize) -> (visits:
    Option<Vec<ChunkVisit>>)
    requires
        interleave is Planar ==> 1 <= bands <= chunks,
    ensures
        visits is Some <==> visits_of(
            interleave,
            chunk as int,
            chunks as int,
            bands as int,
        ) is Some,
        visits is Some ==> visits->Some_0@ == visits_of(
            interleave,
            chunk as int,
            chunks as int,
            bands as int,
        )->Some_0,
{
    let mut visits: Vec<ChunkVisit> = Vec::new();
    match interleave {
        InterleaveType::Planar => {
            proof {
                vstd::arithmetic::div_mod::lemma_div_non_zero(chunks as int, bands as int);
            }
            let per_band: u32 = chunks / bands as u32;
            let band: usize = (chunk / per_band) as usize;
            if band >= bands {
                return None;
            }
            visits.push(ChunkVisit { band, stride: 1, offset: 0 });
            assert(visits@ =~= seq![ChunkVisit { band, stride: 1, offset: 0 }]);
        },
        InterleaveType::Chunky => {
            for b in 0..bands
                invariant
                    visits@ =~= Seq::new(
                        b as nat,
                        |k: int|
                            ChunkVisit {
                                band: k as usize,
                                stride: bands as usize,
                                offset: k as usize,
                            },
                    ),
            {
                visits.push(ChunkVisit { band: b, stride: bands, offset: b });
            }
        },
    }
    Some(visits)
}

/// In a file with a chunk for each band in turn, every chunk of the first `bands` groups
/// belongs to one band: the one of its group.
pub proof fn law_planar_groups(chunks: int, bands: int, band: int, k: int)
    requires
        1 <= bands <= chunks,
        0 <= band < bands,
        0 <= k < chunks / bands,
    ensures
        visits_of(InterleaveType::Planar, band * (chunks / bands) + k, chunks, bands) == Some(
            seq![ChunkVisit { band: band as usize, stride: 1, offset: 0 }],
        ),
{
    let per = chunks / bands;
    vstd::arithmetic::div_mod::lemma_fundamental_div_mod_converse(
        band * per + k,
        per,
        band,
        k,
    );
}

/// The samples of the first `n` pixels of a chunk that a visit finds and that stand for
/// a value. Samples are given by their bits.
pub open spec fn values_of(
    data: Seq<u64>,
    visit: ChunkVisit,
    no_data: Option<u64>,
    n: nat,
) -> Seq<u64>
    decreases n,
{
    if n == 0 {
        Seq::empty()
    } else {
        let before = values_of(data, visit, no_data, (n - 1) as nat);
        let at = (n - 1) * visit.stride + visit.offset;
        if at < data.len() && !crate::raster::nodata(data[at], no_data) {
            before.push(data[at])
        } else {
            before
        }
    }
}

proof fn lemma_no_more_values(
    data: Seq<u64>,
    visit: ChunkVisit,
    no_data: Option<u64>,
    p: nat,
    n: nat,
)
    requires
        p <= n,
        p * visit.stride + visit.offset >= data.len(),
    ensures
        values_of(data, visit, no_data, n) == values_of(data, visit, no_data, p),
    decreases n,
{
    if p < n {
        lemma_no_more_values(data, visit, no_data, p, (n - 1) as nat);
        assert(p * visit.stride <= (n - 1) * visit.stride) by (nonlinear_arith)
            requires
                p <= n - 1,
                visit.stride >= 0,
        ;
    }
}

/// The samples of a chunk that a visit finds and that stand for a value.
pub fn chunk_values(
    data: &[u64],
    pixels: usize,
    visit: ChunkVisit,
    no_data: Option<u64>,
) -> (values: Vec<u64>)
    ensures
        values@ == values_of(data@, visit, no_data, pixels as nat),
{
    let mut values: Vec<u64> = Vec::new();
    let mut at: usize = visit.offset;
    let mut p: usize = 0;
    assert(0 * visit.stride == 0);
    while p < pixels
        invariant
            p <= pixels,
            at == p * visit.stride + visit.offset,
            values@ == values_of(data@, visit, no_data, p as nat),
        decreases pixels - p,
    {
        if at >= data.len() {
            proof {
                lemma_no_more_values(data@, visit, no_data, p as nat, pixels as nat);
            }
            return values;
        }
        if !is_nodata(data[at], no_data) {
            values.push(data[at]);
        }
        proof {
            assert((p + 1) * visit.stride == p * visit.stride + visit.stride) by (nonlinear_arith);
        }
        p += 1;
        if visit.stride > usize::MAX - at {
            proof {
                lemma_no_more_values(data@, visit, no_data, p as nat, pixels as nat);
            }
            return values;
        }
        at += visit.stride;
    }
    values
}

/// The least of a double and of several more.
pub open spec fn lowest(m: u64, v: Seq<u64>) -> u64
    decreases v.len(),
{
    if v.len() == 0 {
        m
    } else {
        let l = lowest(m, v.drop_last());
        if crate::double::less(v.last(), l) {
            v.last()
        } else {
            l
        }
    }
}

/// The greatest of a double and of several more.
pub open spec fn highest(m: u64, v: Seq<u64>) -> u64
    decreases v.len(),
{
    if v.len() == 0 {
        m
    } else {
        let h = highest(m, v.drop_last());
        if crate::double::less(h, v.last()) {
            v.last()
        } else {
            h
        }
    }
}

/// The samples for percentiles once several more were seen: the first ones.
pub open spec fn sampled(samples: Seq<u64>, v: Seq<u64>) -> Seq<u64> {
    let all = samples + v;
    if samples.len() >= MAX_PERCENTILE_SAMPLES {
        samples
    } else if all.len() <= MAX_PERCENTILE_SAMPLES {
        all
    } else {
        all.take(MAX_PERCENTILE_SAMPLES as int)
    }
}

/// What was seen of the samples of a band.
pub struct BandRange {
    pub count: u64,
    pub min: u64,
    pub max: u64,
    pub samples: Vec<u64>,
}

/// The range of a band: its least and greatest sample, and those at the second and the
/// ninety-eighth percentile.
#[derive(Debug, Clone, Copy, PartialEq, Eq, Structural)]
pub struct BandBounds {
    pub min: u64,
    pub max: u64,
    pub low: u64,
    pub high: u64,
}

/// The integers by which samples are ordered.
pub open spec fn ranks_of(samples: Seq<u64>) -> Seq<i64> {
    samples.map_values(|s: u64| crate::double::rank(s) as i64)
}

/// `v` is the sample at place `k` of the samples in order.
pub open spec fn at_rank(samples: Seq<u64>, k: int, v: u64) -> bool {
    exists|order: Seq<usize>|
        #[trigger] crate::order::is_stable_order(ranks_of(samples), order) && v
            == samples[order[k] as int]
}

impl BandRange {
    /// Nothing was seen yet.
    pub fn new() -> (r: Self)
        ensures
            r.count == 0,
            r.min == INFINITY_BITS,
            r.max == NEG_INFINITY_BITS,
            r.samples@ == Seq::<u64>::empty(),
    {
        BandRange { count: 0, min: INFINITY_BITS, max: NEG_INFINITY_BITS, samples: Vec::new() }
    }

    /// Takes in the samples of one chunk.
    pub fn absorb(&mut self, values: &[u64])
        requires
            old(self).count + values@.len() <= u64::MAX,
        ensures
            absorbed(*old(self), *final(self), values@),
    {
        assert(values@.take(0) =~= Seq::empty());
        assert(self.samples@ =~= sampled(self.samples@, values@.take(0)));
        for i in 0..values.len()
            invariant
                old(self).count + values@.len() <= u64::MAX,
                self.count == old(self).count + i,
                self.min == lowest(old(self).min, values@.take(i as int)),
                self.max == highest(old(self).max, values@.take(i as int)),
                self.samples@ == sampled(old(self).samples@, values@.take(i as int)),
        {
            let v: u64 = values[i];
            let ghost part = values@.take(i + 1);
            assert(part.drop_last() =~= values@.take(i as int));
            assert(part.last() == v);
            self.count = self.count + 1;
            if is_less(v, self.min) {
                self.min = v;
            }
            if is_less(self.max, v) {
                self.max = v;
            }
            if self.samples.len() < MAX_PERCENTILE_SAMPLES {
                self.samples.push(v);
            }
            assert(self.samples@ =~= sampled(old(self).samples@, part));
        }
        assert(values@.take(values@.len() as int) =~= values@);
    }

    /// The bounds of the band. A band without samples has zeros.
    pub fn bounds(&self) -> (b: BandBounds)
        ensures
            is_bounds(*self, b),
    {
        let min: u64 = if self.count == 0 {
            0
        } else {
            self.min
        };
        let max: u64 = if self.count == 0 {
            0
        } else {
            self.max
        };
        if self.samples.len() == 0 {
            return BandBounds { min, max, low: min, high: max };
        }
        let mut ranks: Vec<i64> = Vec::new();
        for i in 0..self.samples.len()
            invariant
                ranks@.len() == i,
                forall|j: int|
                    0 <= j < i ==> #[trigger] ranks@[j] == crate::double::rank(self.samples@[j]),
        {
            ranks.push(rank_of(self.samples[i]));
        }
        let order: Vec<usize> = stable_order(&ranks);
        let last: usize = self.samples.len() - 1;
        let lo: usize = last / 50;
        let up: usize = last / 50 + (if last % 50 == 0 {
            0usize
        } else {
            1usize
        });
        proof {
            assert(up == (last + 49) / 50);
            assert(ranks@ =~= ranks_of(self.samples@));
            assert(order@[lo as int] < ranks@.len());
            assert(order@[last - up] < ranks@.len());
        }
        BandBounds {
            min,
            max,
            low: self.samples[order[lo]],
            high: self.samples[order[last - up]],
        }
    }
}

/// What taking in the samples of one chunk makes of what was seen of a band.
pub open spec fn absorbed(before: BandRange, after: BandRange, values: Seq<u64>) -> bool {
    &&& after.count == before.count + values.len()
    &&& after.min == lowest(before.min, values)
    &&& after.max == highest(before.max, values)
    &&& after.samples@ == sampled(before.samples@, values)
}

proof fn lemma_values_len(data: Seq<u64>, visit: ChunkVisit, no_data: Option<u64>, n: nat)
    ensures
        values_of(data, visit, no_data, n).len() <= n,
    decreases n,
{
    if n > 0 {
        lemma_values_len(data, visit, no_data, (n - 1) as nat);
    }
}

/// The samples of a raster while they are read: chunk after chunk, band by band.
pub struct StatsReader {
    pub interleave: InterleaveType,
    pub chunks: u32,
    pub bands: usize,
    pub no_data: Option<u64>,
    pub next: u32,
    pub ranges: Vec<BandRange>,
}

/// Reading one more chunk: each of its visits gives a run of samples for a band, which the
/// range of that band takes in; the other bands stay.
pub open spec fn takes_in(
    before: StatsReader,
    after: StatsReader,
    data: Seq<u64>,
    pixels: nat,
    runs: Seq<(usize, Vec<u64>)>,
) -> bool {
    let visits = before.next_visits()->Some_0;
    &&& after.interleave == before.interleave
    &&& after.chunks == before.chunks
    &&& after.bands == before.bands
    &&& after.no_data == before.no_data
    &&& after.next == before.next + 1
    &&& runs.len() == visits.len()
    &&& forall|k: int|
        0 <= k < visits.len() ==> {
            &&& (#[trigger] runs[k]).0 == visits[k].band
            &&& runs[k].1@ == values_of(data, visits[k], before.no_data, pixels)
            &&& absorbed(
                before.ranges@[visits[k].band as int],
                after.ranges@[visits[k].band as int],
                runs[k].1@,
            )
        }
    &&& forall|b: int|
        0 <= b < before.bands && (forall|k: int|
            0 <= k < visits.len() ==> (#[trigger] visits[k]).band != b)
            ==> #[trigger] after.ranges@[b] == before.ranges@[b]
}

impl StatsReader {
    pub open spec fn wf(self) -> bool {
        &&& self.interleave is Planar ==> 1 <= self.bands <= self.chunks
        &&& self.ranges@.len() == self.bands
        &&& self.next <= self.chunks
    }

    /// No chunk was read yet.
    pub open spec fn fresh(self) -> bool {
        &&& self.next == 0
        &&& forall|b: int|
            0 <= b < self.bands ==> {
                let range = #[trigger] self.ranges@[b];
                &&& range.count == 0
                &&& range.min == INFINITY_BITS
                &&& range.max == NEG_INFINITY_BITS
                &&& range.samples@.len() == 0
            }
    }

    /// The bands whose samples the next chunk holds, or `None` where no chunk is missing.
    pub open spec fn next_visits(self) -> Option<Seq<ChunkVisit>> {
        if self.next < self.chunks {
            visits_of(
                self.interleave,
                self.next as int,
                self.chunks as int,
                self.bands as int,
            )
        } else {
            None
        }
    }

    /// Starts to read the samples of a raster.
    pub fn new(interleave: InterleaveType, chunks: u32, bands: usize, no_data: Option<u64>) -> (r:
        Self)
        requires
            interleave is Planar ==> 1 <= bands <= chunks,
        ensures
            r.wf(),
            r.interleave == interleave,
            r.chunks == chunks,
            r.bands == bands,
            r.no_data == no_data,
            r.fresh(),
    {
        let mut ranges: Vec<BandRange> = Vec::new();
        for b in 0..bands
            invariant
                ranges@.len() == b,
                forall|k: int|
                    0 <= k < b ==> {
                        let range = #[trigger] ranges@[k];
                        &&& range.count == 0
                        &&& range.min == INFINITY_BITS
                        &&& range.max == NEG_INFINITY_BITS
                        &&& range.samples@.len() == 0
                    },
        {
            ranges.push(BandRange::new());
        }
        StatsReader { interleave, chunks, bands, no_data, next: 0, ranges }
    }

    /// The number of the chunk that is to be read next, while one is missing.
    pub fn wanted(&self) -> (chunk: Option<u32>)
        requires
            self.wf(),
        ensures
            chunk == (if self.next_visits() is Some {
                Some(self.next)
            } else {
                None
            }),
    {
        if self.next >= self.chunks {
            return None;
        }
        match chunk_visits(self.interleave, self.next, self.chunks, self.bands) {
            Some(_visits) => Some(self.next),
            None => None,
        }
    }

    /// Takes in the samples, by their bits, of the chunk that was wanted. Gives back the
    /// samples that stand for values, with the band of each run of them.
    pub fn accept(&mut self, data: &[u64], pixels: usize) -> (runs: Vec<(usize, Vec<u64>)>)
        requires
            old(self).wf(),
            old(self).next_visits() is Some,
            forall|b: int|
                0 <= b < old(self).bands ==> (#[trigger] old(self).ranges@[b]).count + pixels
                    <= u64::MAX,
        ensures
            final(self).wf(),
            takes_in(*old(self), *final(self), data@, pixels as nat, runs@),
    {
        let ghost before = self.ranges@;
        let ghost wanted = self.next_visits()->Some_0;
        let mut runs: Vec<(usize, Vec<u64>)> = Vec::new();
        let interleave: InterleaveType = self.interleave;
        let bands: usize = self.bands;
        let no_data: Option<u64> = self.no_data;
        match chunk_visits(interleave, self.next, self.chunks, bands) {
            Some(visits) => {
                assert forall|i: int| 0 <= i < visits@.len() implies (
                #[trigger] visits@[i]).band < bands by {
                    if interleave is Planar {
                        let per_band = self.chunks as int / bands as int;
                        vstd::arithmetic::div_mod::lemma_div_non_zero(
                            self.chunks as int,
                            bands as int,
                        );
                        vstd::arithmetic::div_mod::lemma_div_pos_is_pos(
                            self.next as int,
                            per_band,
                        );
                    }
                }
                assert forall|i: int, j: int|
                    0 <= i < visits@.len() && 0 <= j < visits@.len() && i != j implies (
                #[trigger] visits@[i]).band != (#[trigger] visits@[j]).band by {}
                for k in 0..visits.len()
                    invariant
                        visits@ == wanted,
                        interleave == old(self).interleave,
                        bands == old(self).bands,
                        no_data == old(self).no_data,
                        self.interleave == old(self).interleave,
                        self.chunks == old(self).chunks,
                        self.bands == old(self).bands,
                        self.no_data == old(self).no_data,
                        self.next == old(self).next,
                        before == old(self).ranges@,
                        before.len() == bands,
                        self.ranges@.len() == bands,
                        forall|b: int|
                            0 <= b < bands ==> (#[trigger] before[b]).count + pixels <= u64::MAX,
                        forall|i: int|
                            0 <= i < visits@.len() ==> (#[trigger] visits@[i]).band < bands,
                        forall|i: int, j: int|
                            0 <= i < visits@.len() && 0 <= j < visits@.len() && i != j ==> (
                            #[trigger] visits@[i]).band != (#[trigger] visits@[j]).band,
                        runs@.len() == k,
                        forall|i: int|
                            0 <= i < k ==> {
                                &&& (#[trigger] runs@[i]).0 == visits@[i].band
                                &&& runs@[i].1@ == values_of(
                                    data@,
                                    visits@[i],
                                    no_data,
                                    pixels as nat,
                                )
                                &&& absorbed(
                                    before[visits@[i].band as int],
                                    self.ranges@[visits@[i].band as int],
                                    runs@[i].1@,
                                )
                            },
                        forall|b: int|
                            0 <= b < bands && (forall|i: int|
                                0 <= i < k ==> (#[trigger] visits@[i]).band != b)
                                ==> #[trigger] self.ranges@[b] == before[b],
                {
                    let visit: ChunkVisit = visits[k];
                    let values: Vec<u64> = chunk_values(data, pixels, visit, no_data);
                    proof {
                        lemma_values_len(data@, visit, no_data, pixels as nat);
                        assert(self.ranges@[visit.band as int] == before[visit.band as int]);
                    }
                    let ghost prior = self.ranges@;
                    let mut range: BandRange = BandRange::new();
                    core::mem::swap(&mut range, &mut self.ranges[visit.band]);
                    range.absorb(values.as_slice());
                    self.ranges.set(visit.band, range);
                    proof {
                        assert(self.ranges@ =~= prior.update(visit.band as int, range));
                        assert forall|b: int|
                            0 <= b < bands && (forall|i: int|
                                0 <= i < k + 1 ==> (#[trigger] visits@[i]).band
                                    != b) implies #[trigger] self.ranges@[b] == before[b] by {
                            assert(visits@[k as int].band != b);
                        }
                    }
                    runs.push((visit.band, values));
                }
            },
            None => {},
        }
        self.next = self.next + 1;
        runs
    }

    /// The bounds of each band.
    pub fn bounds(&self) -> (all: Vec<BandBounds>)
        ensures
            all@.len() == self.ranges@.len(),
            forall|b: int|
                0 <= b < all@.len() ==> is_bounds(self.ranges@[b], #[trigger] all@[b]),
    {
        let mut all: Vec<BandBounds> = Vec::new();
        for b in 0..self.ranges.len()
            invariant
                all@.len() == b,
                forall|k: int| 0 <= k < b ==> is_bounds(self.ranges@[k], #[trigger] all@[k]),
        {
            all.push(self.ranges[b].bounds());
        }
        all
    }
}

/// The bounds of what was seen of a band: those of its samples, or zeros, and the samples
/// at the second and the ninety-eighth percentile.
pub open spec fn is_bounds(range: BandRange, b: BandBounds) -> bool {
    &&& b.min == (if range.count == 0 {
        0
    } else {
        range.min
    })
    &&& b.max == (if range.count == 0 {
        0
    } else {
        range.max
    })
    &&& range.samples@.len() == 0 ==> b.low == b.min && b.high == b.max
    &&& range.samples@.len() > 0 ==> {
        let last = range.samples@.len() - 1;
        &&& at_rank(range.samples@, last / 50, b.low)
        &&& at_rank(range.samples@, last - (last + 49) / 50, b.high)
    }
}

proof fn lemma_lowest(m: u64, v: Seq<u64>)
    requires
        crate::double::is_number(m),
        forall|i: int| 0 <= i < v.len() ==> crate::double::is_number(#[trigger] v[i]),
    ensures
        crate::double::is_number(lowest(m, v)),
        crate::double::rank(lowest(m, v)) <= crate::double::rank(m),
        forall|i: int|
            0 <= i < v.len() ==> crate::double::rank(lowest(m, v)) <= crate::double::rank(
                #[trigger] v[i],
            ),
        lowest(m, v) == m || v.contains(lowest(m, v)),
    decreases v.len(),
{
    if v.len() > 0 {
        let w = v.drop_last();
        assert forall|i: int| 0 <= i < w.len() implies crate::double::is_number(
            #[trigger] w[i],
        ) by {
            assert(w[i] == v[i]);
        }
        lemma_lowest(m, w);
        assert(crate::double::is_number(v[v.len() - 1]));
        assert forall|i: int| 0 <= i < v.len() implies crate::double::rank(lowest(m, v))
            <= crate::double::rank(#[trigger] v[i]) by {
            if i < w.len() {
                assert(w[i] == v[i]);
            }
        }
        if w.contains(lowest(m, w)) {
            let k = choose|k: int| 0 <= k < w.len() && w[k] == lowest(m, w);
            assert(v[k] == lowest(m, w));
        }
        assert(v[v.len() - 1] == v.last());
    }
}

proof fn lemma_highest(m: u64, v: Seq<u64>)
    requires
        crate::double::is_number(m),
        forall|i: int| 0 <= i < v.len() ==> crate::double::is_number(#[trigger] v[i]),
    ensures
        crate::double::is_number(highest(m, v)),
        crate::double::rank(m) <= crate::double::rank(highest(m, v)),
        forall|i: int|
            0 <= i < v.len() ==> crate::double::rank(#[trigger] v[i]) <= crate::double::rank(
                highest(m, v),
            ),
        highest(m, v) == m || v.contains(highest(m, v)),
    decreases v.len(),
{
    if v.len() > 0 {
        let w = v.drop_last();
        assert forall|i: int| 0 <= i < w.len() implies crate::double::is_number(
            #[trigger] w[i],
        ) by {
            assert(w[i] == v[i]);
        }
        lemma_highest(m, w);
        assert(crate::double::is_number(v[v.len() - 1]));
        assert forall|i: int| 0 <= i < v.len() implies crate::double::rank(#[trigger] v[i])
            <= crate::double::rank(highest(m, v)) by {
            if i < w.len() {
                assert(w[i] == v[i]);
            }
        }
        if w.contains(highest(m, w)) {
            let k = choose|k: int| 0 <= k < w.len() && w[k] == highest(m, w);
            assert(v[k] == highest(m, w));
        }
        assert(v[v.len() - 1] == v.last());
    }
}

/// What starts at the infinities and takes in samples that are numbers ends at the least
/// and at the greatest of them.
pub proof fn law_range_bounds_samples(v: Seq<u64>)
    requires
        v.len() > 0,
        forall|i: int| 0 <= i < v.len() ==> crate::double::is_finite(#[trigger] v[i]),
    ensures
        v.contains(lowest(INFINITY_BITS, v)),
        v.contains(highest(NEG_INFINITY_BITS, v)),
        forall|i: int|
            0 <= i < v.len() ==> crate::double::rank(lowest(INFINITY_BITS, v))
                <= crate::double::rank(#[trigger] v[i]) <= crate::double::rank(
                highest(NEG_INFINITY_BITS, v),
            ),
{
    assert forall|i: int| 0 <= i < v.len() implies crate::double::is_number(#[trigger] v[i]) by {
        assert(crate::double::is_finite(v[i]));
    }
    lemma_lowest(INFINITY_BITS, v);
    lemma_highest(NEG_INFINITY_BITS, v);
    assert(crate::double::is_finite(v[0]));
}

proof fn lemma_extremes_concat(m: u64, a: Seq<u64>, b: Seq<u64>)
    ensures
        lowest(m, a + b) == lowest(lowest(m, a), b),
        highest(m, a + b) == highest(highest(m, a), b),
    decreases b.len(),
{
    if b.len() == 0 {
        assert(a + b =~= a);
    } else {
        lemma_extremes_concat(m, a, b.drop_last());
        assert((a + b).drop_last() =~= a + b.drop_last());
        assert((a + b).last() == b.last());
    }
}

/// It does not matter where the samples of a band are cut into chunks: taking in one run
/// and then another is taking in both at once.
pub proof fn law_runs_join(m: u64, samples: Seq<u64>, a: Seq<u64>, b: Seq<u64>)
    requires
        samples.len() <= MAX_PERCENTILE_SAMPLES,
    ensures
        lowest(lowest(m, a), b) == lowest(m, a + b),
        highest(highest(m, a), b) == highest(m, a + b),
        sampled(sampled(samples, a), b) == sampled(samples, a + b),
{
    lemma_extremes_concat(m, a, b);
    assert(sampled(sampled(samples, a), b) =~= sampled(samples, a + b));
}

/// Every sample that a visit finds is a number, and none is the one that stands for no
/// value.
pub proof fn law_values_are_numbers(
    data: Seq<u64>,
    visit: ChunkVisit,
    no_data: Option<u64>,
    n: nat,
)
    ensures
        forall|i: int|
            0 <= i < values_of(data, visit, no_data, n).len() ==> !crate::raster::nodata(
                #[trigger] values_of(data, visit, no_data, n)[i],
                no_data,
            ) && crate::double::is_finite(values_of(data, visit, no_data, n)[i]),
    decreases n,
{
    if n > 0 {
        law_values_are_numbers(data, visit, no_data, (n - 1) as nat);
        let before = values_of(data, visit, no_data, (n - 1) as nat);
        let all = values_of(data, visit, no_data, n);
        assert forall|i: int| 0 <= i < all.len() implies !crate::raster::nodata(
            #[trigger] all[i],
            no_data,
        ) && crate::double::is_finite(all[i]) by {
            if i < before.len() {
                assert(all[i] == before[i]);
            }
        }
    }
}

/// The samples that stand for a value which a chunk holds of a band.
pub open spec fn chunk_samples(
    visits: Option<Seq<ChunkVisit>>,
    band: int,
    no_data: Option<u64>,
    chunk: (Seq<u64>, nat),
) -> Seq<u64>
    decreases (match visits {
        Some(v) => v.len(),
        None => 0,
    }),
{
    match visits {
        None => Seq::empty(),
        Some(v) => if v.len() == 0 {
            Seq::empty()
        } else if v.last().band == band {
            values_of(chunk.0, v.last(), no_data, chunk.1)
        } else {
            chunk_samples(Some(v.drop_last()), band, no_data, chunk)
        },
    }
}

/// The samples that stand for a value which the first chunks of a raster hold of a band, in
/// the order of the chunks. A chunk is given by its samples and the number of its pixels.
pub open spec fn band_samples(reader: StatsReader, chunks: Seq<(Seq<u64>, nat)>, band: int) -> Seq<
    u64,
>
    decreases chunks.len(),
{
    if chunks.len() == 0 {
        Seq::empty()
    } else {
        band_samples(reader, chunks.drop_last(), band) + chunk_samples(
            visits_of(
                reader.interleave,
                chunks.len() - 1,
                reader.chunks as int,
                reader.bands as int,
            ),
            band,
            reader.no_data,
            chunks.last(),
        )
    }
}

/// `after` took in a chunk that `before` wanted.
pub open spec fn is_step(before: StatsReader, after: StatsReader, chunk: (Seq<u64>, nat)) -> bool {
    &&& before.wf()
    &&& after.wf()
    &&& before.next_visits() is Some
    &&& exists|runs: Seq<(usize, Vec<u64>)>| #[trigger]
        takes_in(before, after, chunk.0, chunk.1, runs)
}

/// A raster is read: from the start, one chunk after the other is taken in.
pub open spec fn is_reading(readers: Seq<StatsReader>, chunks: Seq<(Seq<u64>, nat)>) -> bool {
    &&& readers.len() == chunks.len() + 1
    &&& readers[0].wf()
    &&& readers[0].fresh()
    &&& forall|i: int|
        0 <= i < chunks.len() ==> is_step(readers[i], readers[i + 1], #[trigger] chunks[i])
}

/// What was seen of a band is what there is to see of samples.
pub open spec fn is_range_of(range: BandRange, samples: Seq<u64>) -> bool {
    &&& range.count == samples.len()
    &&& range.min == lowest(INFINITY_BITS, samples)
    &&& range.max == highest(NEG_INFINITY_BITS, samples)
    &&& range.samples@ == sampled(Seq::empty(), samples)
}

proof fn lemma_chunk_of_band(
    visits: Seq<ChunkVisit>,
    k: int,
    no_data: Option<u64>,
    chunk: (Seq<u64>, nat),
)
    requires
        0 <= k < visits.len(),
        forall|i: int, j: int|
            0 <= i < visits.len() && 0 <= j < visits.len() && i != j ==> (
            #[trigger] visits[i]).band != (#[trigger] visits[j]).band,
    ensures
        chunk_samples(Some(visits), visits[k].band as int, no_data, chunk) == values_of(
            chunk.0,
            visits[k],
            no_data,
            chunk.1,
        ),
    decreases visits.len(),
{
    if k < visits.len() - 1 {
        let rest = visits.drop_last();
        assert(visits[visits.len() - 1].band != visits[k].band);
        assert(rest[k] == visits[k]);
        assert forall|i: int, j: int|
            0 <= i < rest.len() && 0 <= j < rest.len() && i != j implies (
        #[trigger] rest[i]).band != (#[trigger] rest[j]).band by {
            assert(rest[i] == visits[i] && rest[j] == visits[j]);
        }
        lemma_chunk_of_band(rest, k, no_data, chunk);
    }
}

proof fn lemma_chunk_of_no_band(
    visits: Seq<ChunkVisit>,
    band: int,
    no_data: Option<u64>,
    chunk: (Seq<u64>, nat),
)
    requires
        forall|k: int| 0 <= k < visits.len() ==> (#[trigger] visits[k]).band != band,
    ensures
        chunk_samples(Some(visits), band, no_data, chunk) == Seq::<u64>::empty(),
    decreases visits.len(),
{
    if visits.len() > 0 {
        let rest = visits.drop_last();
        assert(visits[visits.len() - 1].band != band);
        assert forall|k: int| 0 <= k < rest.len() implies (#[trigger] rest[k]).band != band by {
            assert(rest[k] == visits[k]);
        }
        lemma_chunk_of_no_band(rest, band, no_data, chunk);
    }
}

proof fn lemma_step(
    before: StatsReader,
    after: StatsReader,
    chunk: (Seq<u64>, nat),
    band: int,
    seen: Seq<u64>,
)
    requires
        is_step(before, after, chunk),
        0 <= band < before.bands,
        is_range_of(before.ranges@[band], seen),
    ensures
        is_range_of(
            after.ranges@[band],
            seen + chunk_samples(before.next_visits(), band, before.no_data, chunk),
        ),
        after.interleave == before.interleave,
        after.chunks == before.chunks,
        after.bands == before.bands,
        after.no_data == before.no_data,
        after.next == before.next + 1,
{
    let visits = before.next_visits()->Some_0;
    let runs = choose|runs: Seq<(usize, Vec<u64>)>| #[trigger]
        takes_in(before, after, chunk.0, chunk.1, runs);
    assert forall|i: int, j: int|
        0 <= i < visits.len() && 0 <= j < visits.len() && i != j implies (
    #[trigger] visits[i]).band != (#[trigger] visits[j]).band by {}
    if exists|k: int| 0 <= k < visits.len() && (#[trigger] visits[k]).band == band {
        let k = choose|k: int| 0 <= k < visits.len() && (#[trigger] visits[k]).band == band;
        lemma_chunk_of_band(visits, k, before.no_data, chunk);
        assert(runs[k].0 == visits[k].band);
        law_runs_join(INFINITY_BITS, Seq::empty(), seen, runs[k].1@);
        law_runs_join(NEG_INFINITY_BITS, Seq::empty(), seen, runs[k].1@);
    } else {
        lemma_chunk_of_no_band(visits, band, before.no_data, chunk);
        assert(after.ranges@[band] == before.ranges@[band]);
        assert(seen + Seq::<u64>::empty() =~= seen);
    }
}

/// Whatever chunks a raster is cut into, what was seen of a band once they were read is what
/// there is to see of all the samples of the band that stand for a value: how many they are,
/// the least and the greatest of them, and the first ones.
pub proof fn law_every_sample_counts(
    readers: Seq<StatsReader>,
    chunks: Seq<(Seq<u64>, nat)>,
    band: int,
)
    requires
        is_reading(readers, chunks),
        0 <= band < readers[0].bands,
    ensures
        readers.last().bands == readers[0].bands,
        readers.last().next == chunks.len(),
        is_range_of(readers.last().ranges@[band], band_samples(readers[0], chunks, band)),
{
    lemma_reading(readers, chunks, band);
}

proof fn lemma_reading(readers: Seq<StatsReader>, chunks: Seq<(Seq<u64>, nat)>, band: int)
    requires
        is_reading(readers, chunks),
        0 <= band < readers[0].bands,
    ensures
        readers.last().interleave == readers[0].interleave,
        readers.last().chunks == readers[0].chunks,
        readers.last().bands == readers[0].bands,
        readers.last().no_data == readers[0].no_data,
        readers.last().next == chunks.len(),
        is_range_of(readers.last().ranges@[band], band_samples(readers[0], chunks, band)),
    decreases chunks.len(),
{
    if chunks.len() == 0 {
        let range = readers[0].ranges@[band];
        assert(range.samples@ =~= sampled(Seq::empty(), Seq::empty()));
    } else {
        let n = chunks.len() - 1;
        let (rs, cs) = (readers.drop_last(), chunks.drop_last());
        assert forall|i: int| 0 <= i < cs.len() implies is_step(
            rs[i],
            rs[i + 1],
            #[trigger] cs[i],
        ) by {
            assert(is_step(readers[i], readers[i + 1], chunks[i]));
        }
        lemma_reading(rs, cs, band);
        assert(is_step(readers[n], readers[n + 1], chunks[n]));
        lemma_step(readers[n], readers[n + 1], chunks[n], band, band_samples(readers[0], cs, band));
    }
}

/// The number of bands stays while a raster is read.
pub proof fn lemma_bands_stay(readers: Seq<StatsReader>, chunks: Seq<(Seq<u64>, nat)>)
    requires
        is_reading(readers, chunks),
    ensures
        readers.last().bands == readers[0].bands,
    decreases chunks.len(),
{
    if chunks.len() > 0 {
        let n = chunks.len() - 1;
        let (rs, cs) = (readers.drop_last(), chunks.drop_last());
        assert forall|i: int| 0 <= i < cs.len() implies is_step(
            rs[i],
            rs[i + 1],
            #[trigger] cs[i],
        ) by {
            assert(is_step(readers[i], readers[i + 1], chunks[i]));
        }
        lemma_bands_stay(rs, cs);
        assert(is_step(readers[n], readers[n + 1], chunks[n]));
    }
}

/// The bounds of samples: the least and the greatest of them, and those of the first ones
/// that stand at the second and the ninety-eighth percentile. Zeros where there is none.
pub open spec fn is_bounds_of(samples: Seq<u64>, b: BandBounds) -> bool {
    if samples.len() == 0 {
        b == (BandBounds { min: 0, max: 0, low: 0, high: 0 })
    } else {
        let first = sampled(Seq::empty(), samples);
        let last = first.len() - 1;
        &&& samples.contains(b.min)
        &&& samples.contains(b.max)
        &&& forall|i: int|
            0 <= i < samples.len() ==> crate::double::rank(b.min) <= crate::double::rank(
                #[trigger] samples[i],
            ) <= crate::double::rank(b.max)
        &&& at_rank(first, last / 50, b.low)
        &&& at_rank(first, last - (last + 49) / 50, b.high)
    }
}

proof fn lemma_chunk_is_finite(
    visits: Option<Seq<ChunkVisit>>,
    band: int,
    no_data: Option<u64>,
    chunk: (Seq<u64>, nat),
)
    ensures
        forall|i: int|
            0 <= i < chunk_samples(visits, band, no_data, chunk).len()
                ==> crate::double::is_finite(
                #[trigger] chunk_samples(visits, band, no_data, chunk)[i],
            ),
    decreases (match visits {
        Some(v) => v.len(),
        None => 0,
    }),
{
    match visits {
        Some(v) => if v.len() > 0 {
            let all = chunk_samples(visits, band, no_data, chunk);
            if v.last().band == band {
                law_values_are_numbers(chunk.0, v.last(), no_data, chunk.1);
                assert(all == values_of(chunk.0, v.last(), no_data, chunk.1));
            } else {
                lemma_chunk_is_finite(Some(v.drop_last()), band, no_data, chunk);
                assert(all == chunk_samples(Some(v.drop_last()), band, no_data, chunk));
            }
        },
        None => {},
    }
}

proof fn lemma_band_is_finite(reader: StatsReader, chunks: Seq<(Seq<u64>, nat)>, band: int)
    ensures
        forall|i: int|
            0 <= i < band_samples(reader, chunks, band).len() ==> crate::double::is_finite(
                #[trigger] band_samples(reader, chunks, band)[i],
            ),
    decreases chunks.len(),
{
    if chunks.len() > 0 {
        let before = band_samples(reader, chunks.drop_last(), band);
        let visits = visits_of(
            reader.interleave,
            chunks.len() - 1,
            reader.chunks as int,
            reader.bands as int,
        );
        let more = chunk_samples(visits, band, reader.no_data, chunks.last());
        lemma_band_is_finite(reader, chunks.drop_last(), band);
        lemma_chunk_is_finite(visits, band, reader.no_data, chunks.last());
        let all = band_samples(reader, chunks, band);
        assert forall|i: int| 0 <= i < all.len() implies crate::double::is_finite(
            #[trigger] all[i],
        ) by {
            if i < before.len() {
                assert(all[i] == before[i]);
            } else {
                assert(all[i] == more[i - before.len()]);
            }
        }
    }
}

/// Once the chunks of a raster were read, the bounds of a band are those of all its samples
/// that stand for a value.
pub proof fn law_bounds_are_of_all_samples(
    readers: Seq<StatsReader>,
    chunks: Seq<(Seq<u64>, nat)>,
    band: int,
    bounds: BandBounds,
)
    requires
        is_reading(readers, chunks),
        0 <= band < readers[0].bands,
        is_bounds(readers.last().ranges@[band], bounds),
    ensures
        is_bounds_of(band_samples(readers[0], chunks, band), bounds),
{
    let samples = band_samples(readers[0], chunks, band);
    law_every_sample_counts(readers, chunks, band);
    lemma_band_is_finite(readers[0], chunks, band);
    if samples.len() > 0 {
        law_range_bounds_samples(samples);
    }
}

// ─── The images of a file ───

/// A description is that of the full image of a raster.
pub open spec fn is_base_ifd(
    ifd: IfdInfo,
    path: Seq<char>,
    width: u32,
    height: u32,
    chunk_type: ChunkType,
    chunk_width: u32,
    chunk_length: u32,
    interleave: InterleaveType,
) -> bool {
    &&& ifd.index == 0
    &&& ifd.width == width
    &&& ifd.height == height
    &&& ifd.chunk_type == chunk_type
    &&& ifd.chunk_width == chunk_width
    &&& ifd.chunk_length == chunk_length
    &&& ifd.chunks_per_row == row_chunks(chunk_type, width, chunk_width)
    &&& !ifd.external
    &&& ifd.ifd_ptr is None
    &&& ifd.interleave == interleave
    &&& ifd.file_path@ == path
}

/// The description of the full image of a raster.
pub fn base_ifd(
    path: &str,
    width: u32,
    height: u32,
    chunk_type: ChunkType,
    chunk_width: u32,
    chunk_length: u32,
    interleave: InterleaveType,
) -> (ifd: IfdInfo)
    requires
        chunk_type is Tile ==> chunk_width >= 1 && width + chunk_width <= u32::MAX,
    ensures
        is_base_ifd(
            ifd,
            path@,
            width,
            height,
            chunk_type,
            chunk_width,
            chunk_length,
            interleave,
        ),
{
    IfdInfo {
        index: 0,
        width,
        height,
        chunk_type,
        chunk_width,
        chunk_length,
        chunks_per_row: chunks_per_row(chunk_type, width, chunk_width),
        external: false,
        ifd_ptr: None,
        interleave,
        file_path: path.to_owned(),
    }
}

/// The sizes that could be read.
pub open spec fn known_sizes(sizes: Seq<Option<(u32, u32)>>) -> Seq<(u32, u32)>
    decreases sizes.len(),
{
    if sizes.len() == 0 {
        Seq::empty()
    } else {
        let before = known_sizes(sizes.drop_last());
        match sizes.last() {
            Some(size) => before.push(size),
            None => before,
        }
    }
}

/// A description is that of a smaller image in the file of a raster: it is cut into
/// chunks like the full image.
pub open spec fn is_sub_ifd(base: IfdInfo, ifd: IfdInfo, size: (u32, u32), index: int) -> bool {
    &&& ifd.index == index
    &&& ifd.width == size.0
    &&& ifd.height == size.1
    &&& ifd.chunk_type == base.chunk_type
    &&& ifd.chunk_width == base.chunk_width
    &&& ifd.chunk_length == base.chunk_length
    &&& ifd.chunks_per_row == row_chunks(base.chunk_type, size.0, base.chunk_width)
    &&& !ifd.external
    &&& ifd.ifd_ptr is None
    &&& ifd.interleave == base.interleave
    &&& ifd.file_path@ == base.file_path@
}

/// The descriptions of the smaller images in the file of a raster, from their sizes. One
/// whose size could not be read is left out.
pub fn sub_ifds(base: &IfdInfo, sizes: &Vec<Option<(u32, u32)>>) -> (ifds: Vec<IfdInfo>)
    requires
        sizes@.len() < usize::MAX,
        base.chunk_type is Tile ==> base.chunk_width >= 1 && forall|i: int|
            0 <= i < sizes@.len() && (#[trigger] sizes@[i]) is Some ==> sizes@[i]->Some_0.0
                + base.chunk_width <= u32::MAX,
    ensures
        ifds@.len() == known_sizes(sizes@).len(),
        forall|i: int|
            0 <= i < ifds@.len() ==> is_sub_ifd(
                *base,
                #[trigger] ifds@[i],
                known_sizes(sizes@)[i],
                i + 1,
            ),
{
    let mut ifds: Vec<IfdInfo> = Vec::new();
    for k in 0..sizes.len()
        invariant
            sizes@.len() < usize::MAX,
            base.chunk_type is Tile ==> base.chunk_width >= 1 && forall|i: int|
                0 <= i < sizes@.len() && (#[trigger] sizes@[i]) is Some ==> sizes@[i]->Some_0.0
                    + base.chunk_width <= u32::MAX,
            ifds@.len() <= k,
            ifds@.len() == known_sizes(sizes@.take(k as int)).len(),
            forall|i: int|
                0 <= i < ifds@.len() ==> is_sub_ifd(
                    *base,
                    #[trigger] ifds@[i],
                    known_sizes(sizes@.take(k as int))[i],
                    i + 1,
                ),
    {
        assert(sizes@.take(k + 1).drop_last() =~= sizes@.take(k as int));
        assert(sizes@.take(k + 1).last() == sizes@[k as int]);
        match sizes[k] {
            Some(size) => {
                let n: usize = ifds.len() + 1;
                ifds.push(
                    IfdInfo {
                        index: n,
                        width: size.0,
                        height: size.1,
                        chunk_type: base.chunk_type,
                        chunk_width: base.chunk_width,
                        chunk_length: base.chunk_length,
                        chunks_per_row: chunks_per_row(base.chunk_type, size.0, base.chunk_width),
                        external: false,
                        ifd_ptr: None,
                        interleave: base.interleave,
                        file_path: base.file_path.as_str().to_owned(),
                    },
                );
            },
            None => {},
        }
    }
    assert(sizes@.take(sizes@.len() as int) =~= sizes@);
    ifds
}

/// The descriptions of all images of a raster: the full one, the smaller ones in its
/// file, and those in its overview file.
pub fn all_ifds(base: IfdInfo, subs: Vec<IfdInfo>, overviews: Vec<IfdInfo>) -> (ifds: Vec<IfdInfo>)
    ensures
        ifds@ == seq![base] + subs@ + overviews@,
{
    let mut ifds: Vec<IfdInfo> = Vec::new();
    ifds.push(base);
    let mut subs: Vec<IfdInfo> = subs;
    let mut overviews: Vec<IfdInfo> = overviews;
    let ghost s = subs@;
    let ghost o = overviews@;
    ifds.append(&mut subs);
    ifds.append(&mut overviews);
    assert(ifds@ =~= seq![base] + s + o);
    ifds
}

// ─── What holds of rasters in memory ───

/// A raster that is taken in comes last, and before it stay, in their order, as many of those
/// that were used last as the limit allows. Where the limit is reached, those that were not
/// used for the longest time leave.
pub proof fn law_unused_rasters_leave<V>(
    before: RasterCacheInner<V>,
    after: RasterCacheInner<V>,
    path: Seq<char>,
    raster: V,
)
    requires
        !has_row(before.entries(), path),
        after.entries() == rows_kept(before.entries(), before.limit() as int).push((path, raster)),
    ensures
        ({
            let (a, b) = (before.entries(), after.entries());
            &&& b.len() > 0 && b.last() == (path, raster)
            &&& a.len() < before.limit() ==> b.len() == a.len() + 1
            &&& a.len() >= before.limit() && before.limit() >= 1 ==> b.len() == before.limit()
            &&& before.limit() == 0 ==> b.len() == 1
            &&& forall|k: int|
                0 <= k < b.len() - 1 ==> #[trigger] b[b.len() - 2 - k] == a[a.len() - 1 - k]
        }),
{
}

/// A path has a row where some row has the path, and its row is such a one.
pub proof fn law_rows_have_paths<V>(rows: Seq<(Seq<char>, V)>, path: Seq<char>)
    ensures
        has_row(rows, path) <==> exists|i: int| 0 <= i < rows.len() && (#[trigger] rows[i]).0 == path,
        has_row(rows, path) ==> 0 <= row_of(rows, path) < rows.len() && rows[row_of(rows, path)].0
            == path,
{
}

/// The transform of a raster with a world file of six values: its first and fourth terms are
/// the last two values, and the others the first four, in order.
pub proof fn law_transform_of_a_world_file<F: Copy, N: Fn(F) -> F>(
    world: &Vec<F>,
    tiepoint: Option<&Vec<F>>,
    scale: Option<&Vec<F>>,
    zero: F,
    one: F,
    negate: N,
    gt: [F; 6],
)
    requires
        call_ensures(
            read_geo_transform_tile::<F, N>,
            (Some(world), tiepoint, scale, zero, one, negate),
            gt,
        ),
        world@.len() == 6,
    ensures
        gt@[0] == world@[4],
        gt@[1] == world@[0],
        gt@[2] == world@[1],
        gt@[3] == world@[5],
        gt@[4] == world@[2],
        gt@[5] == world@[3],
{
}

/// Strips are as wide as their image; tiles cover the width of their image, the last one maybe
/// reaching beyond it.
pub proof fn law_chunks_cover_a_row(chunk_type: ChunkType, width: u32, chunk_width: u32, n: u32)
    requires
        call_ensures(chunks_per_row, (chunk_type, width, chunk_width), n),
        chunk_width >= 1,
    ensures
        chunk_type is Strip ==> n == 1,
        chunk_type is Tile ==> width <= n * chunk_width < width + chunk_width,
{
    raster_load::law_parts_are_rounded_up(width as int, chunk_width as int);
}

/// Bands have chunks of their own where the file says 2, and lie side by side in any other case.
pub proof fn law_bands_lie_side_by_side(planar: Option<u16>, interleave: InterleaveType)
    requires
        call_ensures(interleave_from_planar, (planar,), interleave),
    ensures
        interleave is Planar <==> planar == Some(2u16),
{
}

/// The number of bands is what the file says; else the samples of the first chunk are those of
/// its pixels, as many times as there are bands, but at least one band.
pub proof fn law_bands_are_counted(
    tag: Option<u16>,
    samples: usize,
    chunk_w: u32,
    chunk_h: u32,
    bands: usize,
)
    requires
        call_ensures(band_count, (tag, samples, chunk_w, chunk_h), bands),
    ensures
        tag is Some ==> bands == tag->Some_0,
        tag is None && (chunk_w * chunk_h == 0 || samples < chunk_w * chunk_h) ==> bands == 1,
        tag is None && chunk_w * chunk_h > 0 && samples >= chunk_w * chunk_h ==> bands * (chunk_w
            * chunk_h) <= samples < (bands + 1) * (chunk_w * chunk_h),
{
    let p = chunk_w * chunk_h;
    if tag is None && p > 0 && samples >= p {
        vstd::arithmetic::div_mod::lemma_fundamental_div_mod(samples as int, p);
        vstd::arithmetic::div_mod::lemma_mod_bound(samples as int, p);
        assert(p * bands == bands * p) by (nonlinear_arith);
        assert((bands + 1) * p == bands * p + p) by (nonlinear_arith);
    }
}

/// The kinds of systems by the model of a raster: 1 is projected, 2 geographic.
pub proof fn law_kinds_of_models(model_type: Option<u16>, text: String)
    requires
        call_ensures(crs_type_text, (model_type,), text),
    ensures
        model_type == Some(1u16) ==> text@ == "Projected"@,
        model_type == Some(2u16) ==> text@ == "Geographic"@,
        model_type != Some(1u16) && model_type != Some(2u16) ==> text@ == "Unknown"@,
{
}

/// The highest zoom level is what the resolution asks for, but no more than 22.
pub proof fn law_zoom_is_capped(wanted: Option<u32>, z: u32)
    requires
        call_ensures(cap_zoom, (wanted,), z),
    ensures
        z <= 22,
        wanted is Some && wanted->Some_0 <= 22 ==> z == wanted->Some_0,
        wanted is None || wanted->Some_0 > 22 ==> z == 22,
{
}

/// A chunk of bands that lie side by side holds every band: the first sample of band `b` is at
/// place `b`, and the next ones as many places on as there are bands. A chunk of a band of its
/// own holds that band alone, and every band has the same number of chunks, one behind the
/// other.
pub proof fn law_chunks_hold_bands(
    interleave: InterleaveType,
    chunk: u32,
    chunks: u32,
    bands: usize,
    visits: Option<Vec<ChunkVisit>>,
)
    requires
        call_ensures(chunk_visits, (interleave, chunk, chunks, bands), visits),
        interleave is Planar ==> 1 <= bands <= chunks,
    ensures
        interleave is Chunky ==> {
            &&& visits is Some
            &&& visits->Some_0@.len() == bands
            &&& forall|b: int|
                0 <= b < bands ==> {
                    let v = #[trigger] visits->Some_0@[b];
                    v.band == b && v.offset == b && v.stride == bands
                }
        },
        interleave is Planar && visits is Some ==> {
            let per_band = chunks as int / bands as int;
            let v = visits->Some_0@;
            &&& v.len() == 1
            &&& v[0].stride == 1
            &&& v[0].offset == 0
            &&& v[0].band < bands
            &&& v[0].band * per_band <= chunk < (v[0].band + 1) * per_band
        },
        interleave is Planar && visits is None ==> chunk >= bands * (chunks as int / bands as int),
{
    if interleave is Planar {
        let per_band = chunks as int / bands as int;
        vstd::arithmetic::div_mod::lemma_div_non_zero(chunks as int, bands as int);
        let band = chunk as int / per_band;
        vstd::arithmetic::div_mod::lemma_fundamental_div_mod(chunk as int, per_band);
        vstd::arithmetic::div_mod::lemma_mod_bound(chunk as int, per_band);
        vstd::arithmetic::div_mod::lemma_div_pos_is_pos(chunk as int, per_band);
        assert(per_band * band == band * per_band) by (nonlinear_arith);
        assert((band + 1) * per_band == band * per_band + per_band) by (nonlinear_arith);
        if band >= bands {
            assert(band * per_band >= bands * per_band) by (nonlinear_arith)
                requires
                    band >= bands,
                    per_band >= 0,
            ;
        }
    }
}

proof fn lemma_value_places(
    data: Seq<u64>,
    visit: ChunkVisit,
    no_data: Option<u64>,
    n: nat,
) -> (places: Seq<int>)
    ensures
        are_value_places(
            data,
            visit,
            no_data,
            n as int,
            values_of(data, visit, no_data, n),
            places,
        ),
    decreases n,
{
    if n == 0 {
        Seq::empty()
    } else {
        let p = n - 1;
        let before = lemma_value_places(data, visit, no_data, p as nat);
        let at = p * visit.stride + visit.offset;
        let places = if at < data.len() && !crate::raster::nodata(data[at], no_data) {
            before.push(p)
        } else {
            before
        };
        let (old_values, values) = (
            values_of(data, visit, no_data, p as nat),
            values_of(data, visit, no_data, n),
        );
        assert forall|k: int| 0 <= k < places.len() implies 0 <= #[trigger] places[k] < n && {
            let at = places[k] * visit.stride + visit.offset;
            at < data.len() && !crate::raster::nodata(data[at], no_data) && values[k] == data[at]
        } by {
            if k < before.len() {
                assert(places[k] == before[k]);
            }
        }
        assert forall|j: int, k: int| 0 <= j < k < places.len() implies places[j] < places[k] by {
            assert(places[j] == before[j]);
            if k < before.len() {
                assert(places[k] == before[k]);
            }
        }
        assert forall|i: int| 0 <= i < n && #[trigger] has_value(
            data,
            visit,
            no_data,
            i,
        ) implies places.contains(i) by {
            if i < p {
                assert(before.contains(i));
                let k = choose|k: int| 0 <= k < before.len() && before[k] == i;
                assert(places[k] == i);
            } else {
                assert(places[before.len() as int] == p);
            }
        }
        places
    }
}

/// A pixel of a chunk has a sample that stands for a value.
pub open spec fn has_value(
    data: Seq<u64>,
    visit: ChunkVisit,
    no_data: Option<u64>,
    pixel: int,
) -> bool {
    let at = pixel * visit.stride + visit.offset;
    at < data.len() && !crate::raster::nodata(data[at], no_data)
}

/// `values` are the samples of those pixels of a chunk that stand for a value, in order, and
/// `places` are all these pixels.
pub open spec fn are_value_places(
    data: Seq<u64>,
    visit: ChunkVisit,
    no_data: Option<u64>,
    n: int,
    values: Seq<u64>,
    places: Seq<int>,
) -> bool {
    &&& places.len() == values.len()
    &&& forall|k: int|
        0 <= k < places.len() ==> 0 <= #[trigger] places[k] < n && {
            let at = places[k] * visit.stride + visit.offset;
            at < data.len() && !crate::raster::nodata(data[at], no_data) && values[k] == data[at]
        }
    &&& forall|j: int, k: int| 0 <= j < k < places.len() ==> places[j] < places[k]
    &&& forall|i: int|
        0 <= i < n && #[trigger] has_value(data, visit, no_data, i) ==> places.contains(i)
}

/// The samples of a chunk that count for a band are those of all its pixels that stand for a
/// value, in order.
pub proof fn law_values_of_a_chunk(
    data: &[u64],
    pixels: usize,
    visit: ChunkVisit,
    no_data: Option<u64>,
    values: Vec<u64>,
)
    requires
        call_ensures(chunk_values, (data, pixels, visit, no_data), values),
    ensures
        exists|places: Seq<int>| #[trigger]
            are_value_places(data@, visit, no_data, pixels as int, values@, places),
{
    let places = lemma_value_places(data@, visit, no_data, pixels as nat);
}

/// The first fifty thousand samples are kept for percentiles.
pub proof fn law_first_samples_are_kept(v: Seq<u64>)
    ensures
        v.len() <= 50000 ==> sampled(Seq::empty(), v) == v,
        v.len() > 50000 ==> sampled(Seq::empty(), v) == v.take(50000),
{
    assert(Seq::<u64>::empty() + v =~= v);
}

/// `order` lists samples from the least to the greatest.
pub open spec fn is_ascending(samples: Seq<u64>, order: Seq<usize>) -> bool {
    &&& order.len() == samples.len()
    &&& order.no_duplicates()
    &&& forall|i: int| 0 <= i < order.len() ==> (#[trigger] order[i]) < samples.len()
    &&& forall|i: int, j: int|
        0 <= i < j < order.len() ==> crate::double::rank(samples[(#[trigger] order[i]) as int])
            <= crate::double::rank(samples[(#[trigger] order[j]) as int])
}

proof fn lemma_ascending(samples: Seq<u64>, order: Seq<usize>)
    requires
        crate::order::is_stable_order(ranks_of(samples), order),
    ensures
        is_ascending(samples, order),
{
    let ranks = ranks_of(samples);
    crate::order::law_stable_order_lists_once(ranks, order);
    assert forall|i: int, j: int| 0 <= i < j < order.len() implies crate::double::rank(
        samples[(#[trigger] order[i]) as int],
    ) <= crate::double::rank(samples[(#[trigger] order[j]) as int]) by {
        let (a, b) = (order[i] as int, order[j] as int);
        assert(crate::order::ordered_pair(ranks, a, b));
        assert(ranks[a] == crate::double::rank(samples[a]));
        assert(ranks[b] == crate::double::rank(samples[b]));
    }
}

/// The bounds of a band at the percentiles: of its kept samples in ascending order, the one two
/// hundredths of the way from the first to the last, and the one as far from the last. A band
/// without samples has zeros.
pub proof fn law_percentiles(range: &BandRange, b: BandBounds)
    requires
        call_ensures(BandRange::bounds, (range,), b),
    ensures
        range.count == 0 ==> b.min == 0 && b.max == 0,
        range.count > 0 ==> b.min == range.min && b.max == range.max,
        range.samples@.len() == 0 ==> b.low == b.min && b.high == b.max,
        range.samples@.len() > 0 ==> {
            let last = range.samples@.len() - 1;
            &&& exists|order: Seq<usize>| #[trigger]
                is_ascending(range.samples@, order) && b.low == range.samples@[order[last / 50] as int]
            &&& exists|order: Seq<usize>| #[trigger]
                is_ascending(range.samples@, order) && b.high == range.samples@[order[last - (last
                    + 49) / 50] as int]
        },
{
    let s = range.samples@;
    if s.len() > 0 {
        let last = s.len() - 1;
        let x = choose|order: Seq<usize>|
            #[trigger] crate::order::is_stable_order(ranks_of(s), order) && b.low == s[order[last
                / 50] as int];
        lemma_ascending(s, x);
        let y = choose|order: Seq<usize>|
            #[trigger] crate::order::is_stable_order(ranks_of(s), order) && b.high == s[order[last
                - (last + 49) / 50] as int];
        lemma_ascending(s, y);
    }
}

proof fn lemma_known_places(sizes: Seq<Option<(u32, u32)>>) -> (places: Seq<int>)
    ensures
        are_known_places(sizes, known_sizes(sizes), places),
    decreases sizes.len(),
{
    if sizes.len() == 0 {
        Seq::empty()
    } else {
        let n = sizes.len() - 1;
        let before = lemma_known_places(sizes.drop_last());
        let places = if sizes.last() is Some {
            before.push(n)
        } else {
            before
        };
        assert forall|k: int| 0 <= k < places.len() implies 0 <= #[trigger] places[k]
            < sizes.len() && sizes[places[k]] == Some(known_sizes(sizes)[k]) by {
            if k < before.len() {
                assert(places[k] == before[k]);
                assert(sizes.drop_last()[before[k]] == sizes[before[k]]);
            }
        }
        assert forall|j: int, k: int| 0 <= j < k < places.len() implies places[j] < places[k] by {
            assert(places[j] == before[j]);
            if k < before.len() {
                assert(places[k] == before[k]);
            }
        }
        assert forall|i: int| 0 <= i < sizes.len() && #[trigger] sizes[i] is Some implies
            places.contains(i) by {
            if i < n {
                assert(sizes.drop_last()[i] == sizes[i]);
                assert(before.contains(i));
                let k = choose|k: int| 0 <= k < before.len() && before[k] == i;
                assert(places[k] == i);
            } else {
                assert(places[before.len() as int] == n);
            }
        }
        places
    }
}

/// `known` are the sizes that could be read, in order, and `places` are all of theirs.
pub open spec fn are_known_places(
    sizes: Seq<Option<(u32, u32)>>,
    known: Seq<(u32, u32)>,
    places: Seq<int>,
) -> bool {
    &&& places.len() == known.len()
    &&& forall|k: int|
        0 <= k < places.len() ==> 0 <= #[trigger] places[k] < sizes.len() && sizes[places[k]]
            == Some(known[k])
    &&& forall|j: int, k: int| 0 <= j < k < places.len() ==> places[j] < places[k]
    &&& forall|i: int| 0 <= i < sizes.len() && #[trigger] sizes[i] is Some ==> places.contains(i)
}

/// The smaller images of a file are those whose size could be read, in order, numbered from
/// one, cut into chunks like the full one, and in the same file.
pub proof fn law_smaller_images(
    base: &IfdInfo,
    sizes: &Vec<Option<(u32, u32)>>,
    ifds: Vec<IfdInfo>,
)
    requires
        call_ensures(sub_ifds, (base, sizes), ifds),
        base.chunk_type is Tile ==> base.chunk_width >= 1,
    ensures
        exists|places: Seq<int>| #[trigger]
            are_known_places(sizes@, image_sizes(ifds@), places),
        forall|i: int|
            0 <= i < ifds@.len() ==> {
                let ifd = #[trigger] ifds@[i];
                &&& ifd.index == i + 1
                &&& !ifd.external
                &&& ifd.ifd_ptr is None
                &&& ifd.chunk_type == base.chunk_type
                &&& ifd.chunk_width == base.chunk_width
                &&& ifd.chunk_length == base.chunk_length
                &&& ifd.interleave == base.interleave
                &&& ifd.file_path@ == base.file_path@
                &&& base.chunk_type is Strip ==> ifd.chunks_per_row == 1
                &&& base.chunk_type is Tile ==> ifd.width <= ifd.chunks_per_row * base.chunk_width
                    < ifd.width + base.chunk_width
            },
{
    let places = lemma_known_places(sizes@);
    let known = known_sizes(sizes@);
    assert forall|i: int| 0 <= i < ifds@.len() implies {
        let ifd = #[trigger] ifds@[i];
        &&& ifd.index == i + 1
        &&& !ifd.external
        &&& ifd.ifd_ptr is None
        &&& ifd.chunk_type == base.chunk_type
        &&& ifd.chunk_width == base.chunk_width
        &&& ifd.chunk_length == base.chunk_length
        &&& ifd.interleave == base.interleave
        &&& ifd.file_path@ == base.file_path@
        &&& base.chunk_type is Strip ==> ifd.chunks_per_row == 1
        &&& base.chunk_type is Tile ==> ifd.width <= ifd.chunks_per_row * base.chunk_width
            < ifd.width + base.chunk_width
    } by {
        assert(is_sub_ifd(*base, ifds@[i], known[i], i + 1));
        if base.chunk_type is Tile {
            raster_load::law_parts_are_rounded_up(
                ifds@[i].width as int,
                base.chunk_width as int,
            );
        }
    }
    assert(image_sizes(ifds@) =~= known) by {
        assert forall|i: int| 0 <= i < known.len() implies (ifds@[i].width, ifds@[i].height)
            == #[trigger] known[i] by {
            assert(is_sub_ifd(*base, ifds@[i], known[i], i + 1));
        }
    }
    assert(are_known_places(sizes@, image_sizes(ifds@), places));
}

/// The sizes of images.
pub open spec fn image_sizes(ifds: Seq<IfdInfo>) -> Seq<(u32, u32)> {
    Seq::new(ifds.len(), |i: int| (ifds[i].width, ifds[i].height))
}

/// The full image of a raster is number 0, lies in its own file, and has the sizes and chunks
/// of the raster.
pub proof fn law_full_image(
    path: &str,
    width: u32,
    height: u32,
    chunk_type: ChunkType,
    chunk_width: u32,
    chunk_length: u32,
    interleave: InterleaveType,
    ifd: IfdInfo,
)
    requires
        call_ensures(
            base_ifd,
            (path, width, height, chunk_type, chunk_width, chunk_length, interleave),
            ifd,
        ),
        chunk_type is Tile ==> chunk_width >= 1,
    ensures
        ifd.index == 0,
        !ifd.external,
        ifd.ifd_ptr is None,
        ifd.width == width && ifd.height == height,
        ifd.chunk_type == chunk_type,
        ifd.chunk_width == chunk_width && ifd.chunk_length == chunk_length,
        ifd.interleave == interleave,
        ifd.file_path@ == path@,
        chunk_type is Strip ==> ifd.chunks_per_row == 1,
        chunk_type is Tile ==> width <= ifd.chunks_per_row * chunk_width < width + chunk_width,
{
    if chunk_type is Tile {
        raster_load::law_parts_are_rounded_up(width as int, chunk_width as int);
    }
}

/// The bytes of a raster in memory are those of all its parts, where they fit: each of its
/// four lists of numbers has eight bytes for each number.
pub proof fn law_bytes_of_a_raster(s: &RasterSizes, total: u64)
    requires
        call_ensures(estimate_raster_size_bytes, (s,), total),
        s.fixed + s.file_path + 8 * (s.min_values + s.max_values + s.mean_values
            + s.std_dev_values) + s.ifds + s.crs_type + 16 <= u64::MAX,
    ensures
        total == s.fixed + s.file_path + 8 * (s.min_values + s.max_values + s.mean_values
            + s.std_dev_values) + s.ifds + s.crs_type + 2 * vstd::layout::size_of::<usize>(),
{
    broadcast use vstd::layout::layout_of_primitives;

}

/// The bytes of a cache are those of its paths and its rasters together: none without rasters,
/// and with one more raster as many more as its path and it have.
pub proof fn law_bytes_add_up(rows: Seq<(u64, RasterSizes)>, row: (u64, RasterSizes), total: u64)
    requires
        call_ensures(estimate_raster_size_bytes, (&row.1,), total),
    ensures
        cache_bytes(Seq::<(u64, RasterSizes)>::empty()) == 0,
        cache_bytes(rows.push(row)) == cache_bytes(rows) + row.0 + total,
{
    lemma_bytes_push(rows, row);
}

/// A chunk that is read gives a run of samples for each of its visits, which the range of the
/// band of the visit takes in: their number, the least and the greatest of them, and the first
/// ones for percentiles. Every other band stays as it was, and the next chunk is due.
pub proof fn law_bands_take_in_their_samples(
    before: StatsReader,
    after: StatsReader,
    data: Seq<u64>,
    pixels: nat,
    runs: Seq<(usize, Vec<u64>)>,
    k: int,
    b: int,
)
    requires
        takes_in(before, after, data, pixels, runs),
        before.next_visits() is Some,
    ensures
        ({
            let visits = before.next_visits()->Some_0;
            &&& before.next < before.chunks
            &&& Some(visits) == visits_of(
                before.interleave,
                before.next as int,
                before.chunks as int,
                before.bands as int,
            )
            &&& after.next == before.next + 1
            &&& after.chunks == before.chunks && after.bands == before.bands && after.no_data
                == before.no_data && after.interleave == before.interleave
            &&& runs.len() == visits.len()
            &&& 0 <= k < visits.len() ==> {
                let old_range = before.ranges@[visits[k].band as int];
                let new_range = after.ranges@[visits[k].band as int];
                let run = runs[k].1@;
                &&& runs[k].0 == visits[k].band
                &&& run == values_of(data, visits[k], before.no_data, pixels)
                &&& new_range.count == old_range.count + run.len()
                &&& new_range.min == lowest(old_range.min, run)
                &&& new_range.max == highest(old_range.max, run)
                &&& new_range.samples@ == sampled(old_range.samples@, run)
            }
            &&& 0 <= b < before.bands && (forall|j: int|
                0 <= j < visits.len() ==> (#[trigger] visits[j]).band != b) ==> after.ranges@[b]
                == before.ranges@[b]
        }),
{
    let visits = before.next_visits()->Some_0;
    if 0 <= k < visits.len() {
        assert(runs[k].0 == visits[k].band);
    }
}

/// One more sample makes the least the lesser and the greatest the greater of both; and where
/// fewer than 50000 samples are kept for percentiles, it is kept too.
pub proof fn law_ranges_grow_by_samples(m: u64, v: Seq<u64>, s: u64, samples: Seq<u64>)
    ensures
        lowest(m, Seq::empty()) == m,
        highest(m, Seq::empty()) == m,
        lowest(m, v.push(s)) == (if crate::double::less(s, lowest(m, v)) {
            s
        } else {
            lowest(m, v)
        }),
        highest(m, v.push(s)) == (if crate::double::less(highest(m, v), s) {
            s
        } else {
            highest(m, v)
        }),
        samples.len() < 50000 ==> sampled(samples, seq![s]) == samples.push(s),
        samples.len() >= 50000 ==> sampled(samples, v) == samples,
        samples.len() + v.len() <= 50000 ==> sampled(samples, v) == samples + v,
        samples.len() < 50000 < samples.len() + v.len() ==> sampled(samples, v) == (samples
            + v).take(50000),
{
    assert(v.push(s).drop_last() =~= v);
    if samples.len() < 50000 {
        assert(samples + seq![s] =~= samples.push(s));
    }
    assert(samples.len() + v.len() <= 50000 && samples.len() == 50000 ==> samples + v =~= samples);
}

/// The overviews of a file lie in the file with one more extension, else in the one with
/// another extension; the corners of a raster in degrees are its own, those of any other are
/// converted. The images of a file are its own, then those below it, then the overviews.
pub proof fn law_files_of_overviews(
    path: &str,
    added: bool,
    replaced: bool,
    found: Option<String>,
    candidates: (String, String),
    other: String,
    base: IfdInfo,
    subs: Vec<IfdInfo>,
    overviews: Vec<IfdInfo>,
    ifds: Vec<IfdInfo>,
)
    requires
        call_ensures(find_ovr_file, (path, added, replaced), found),
        call_ensures(ovr_candidates, (path,), candidates),
        call_ensures(crate::paths::with_extension, (path, "ovr"), other),
        call_ensures(all_ifds, (base, subs, overviews), ifds),
    ensures
        candidates.0@ == path@ + ".ovr"@,
        candidates.1@ == other@,
        added ==> found is Some && found->Some_0@ == candidates.0@,
        !added && replaced ==> found is Some && found->Some_0@ == candidates.1@,
        !added && !replaced ==> found is None,
        ifds@.len() == 1 + subs@.len() + overviews@.len(),
        ifds@[0] == base,
        forall|i: int| 0 <= i < subs@.len() ==> ifds@[1 + i] == #[trigger] subs@[i],
        forall|i: int|
            0 <= i < overviews@.len() ==> ifds@[1 + subs@.len() + i] == #[trigger] overviews@[i],
{
}

} // verus!
