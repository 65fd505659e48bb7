//! The caches of rendered tiles: one in memory, one on disk.

use crate::numbers::{decimal_text, hex16};
use crate::order::stable_order;
use crate::resample::ResamplingMode;
use crate::table::Table;
use crate::text::{concat3, str_eq};
use std::collections::hash_map::DefaultHasher;
use std::hash::Hasher;
use vstd::prelude::*;
use vstd::string::*;

verus! {

/// What a rendered tile is found by.
#[derive(Debug, Clone, Hash)]
pub struct TileCacheKey {
    pub layer_hash: String,
    pub z: u32,
    pub x: u32,
    pub y: u32,
    pub resampling: u8,
    /// 0 = PNG, 1 = WebP
    pub format: u8,
}

/// A key as a value: two keys are the same key if and only if their values are equal.
pub struct KeyValue {
    pub layer_hash: Seq<char>,
    pub z: u32,
    pub x: u32,
    pub y: u32,
    pub resampling: u8,
    pub format: u8,
}

impl View for TileCacheKey {
    type V = KeyValue;

    open spec fn view(&self) -> KeyValue {
        KeyValue {
            layer_hash: self.layer_hash@,
            z: self.z,
            x: self.x,
            y: self.y,
            resampling: self.resampling,
            format: self.format,
        }
    }
}

/// The value of the key of a tile.
pub open spec fn key_value(
    hash: Seq<char>,
    z: u32,
    x: u32,
    y: u32,
    resampling: ResamplingMode,
    format: u8,
) -> KeyValue {
    KeyValue { layer_hash: hash, z, x, y, resampling: resampling.number(), format }
}

impl TileCacheKey {
    /// The key of a tile as PNG of the layer with a content hash.
    pub fn new(hash: &str, z: u32, x: u32, y: u32, resampling: ResamplingMode) -> (key: Self)
        ensures
            key@ == key_value(hash@, z, x, y, resampling, 0),
    {
        TileCacheKey {
            layer_hash: hash.to_owned(),
            z,
            x,
            y,
            resampling: resampling.code(),
            format: 0,
        }
    }

    /// The key of a tile as WebP of the layer with a content hash.
    pub fn new_webp(hash: &str, z: u32, x: u32, y: u32, resampling: ResamplingMode) -> (key: Self)
        ensures
            key@ == key_value(hash@, z, x, y, resampling, 1),
    {
        TileCacheKey {
            layer_hash: hash.to_owned(),
            z,
            x,
            y,
            resampling: resampling.code(),
            format: 1,
        }
    }

    /// Two keys are the same key.
    pub fn same(&self, other: &TileCacheKey) -> (r: bool)
        ensures
            r == (self@ == other@),
    {
        self.z == other.z && self.x == other.x && self.y == other.y && self.resampling
            == other.resampling && self.format == other.format && str_eq(
            self.layer_hash.as_str(),
            other.layer_hash.as_str(),
        )
    }
}

/// Different tiles of different layers, modes or formats have different keys.
pub proof fn law_keys_differ(
    hash1: Seq<char>,
    z1: u32,
    x1: u32,
    y1: u32,
    mode1: ResamplingMode,
    format1: u8,
    hash2: Seq<char>,
    z2: u32,
    x2: u32,
    y2: u32,
    mode2: ResamplingMode,
    format2: u8,
)
    requires
        key_value(hash1, z1, x1, y1, mode1, format1) == key_value(
            hash2,
            z2,
            x2,
            y2,
            mode2,
            format2,
        ),
    ensures
        hash1 == hash2,
        z1 == z2 && x1 == x2 && y1 == y2,
        mode1 == mode2,
        format1 == format2,
{
}

/// A tile in the memory cache.
pub struct MemCacheEntry {
    pub key: TileCacheKey,
    pub data: Vec<u8>,
    pub size: u64,
}

/// A tile in the memory cache, as a value.
pub struct CachedTile {
    pub key: KeyValue,
    pub data: Seq<u8>,
    pub size: nat,
}

impl View for MemCacheEntry {
    type V = CachedTile;

    open spec fn view(&self) -> CachedTile {
        CachedTile { key: self.key@, data: self.data@, size: self.size as nat }
    }
}

/// The cache of rendered tiles in memory: when it is full, the tile that was not used for
/// the longest time leaves first.
pub struct MemCache {
    /// The tiles, the one that was used last at the end.
    entries: Vec<MemCacheEntry>,
    max_bytes: u64,
    current_bytes: u64,
}

/// The number of tiles before the one with a key.
pub open spec fn place_of(tiles: Seq<CachedTile>, key: KeyValue) -> int
    decreases tiles.len(),
{
    if tiles.len() == 0 || tiles[0].key == key {
        0
    } else {
        1 + place_of(tiles.drop_first(), key)
    }
}

/// There is a tile with a key.
pub open spec fn holds(tiles: Seq<CachedTile>, key: KeyValue) -> bool {
    exists|i: int| 0 <= i < tiles.len() && (#[trigger] tiles[i]).key == key
}

/// The tiles without the one with a key.
pub open spec fn without(tiles: Seq<CachedTile>, key: KeyValue) -> Seq<CachedTile> {
    if holds(tiles, key) {
        tiles.remove(place_of(tiles, key))
    } else {
        tiles
    }
}

/// No two tiles have the same key.
pub open spec fn keys_distinct(tiles: Seq<CachedTile>) -> bool {
    forall|i: int, j: int|
        0 <= i < tiles.len() && 0 <= j < tiles.len() && i != j ==> (#[trigger] tiles[i]).key != (
        #[trigger] tiles[j]).key
}

/// The sum of the sizes of the tiles.
pub open spec fn total_size(tiles: Seq<CachedTile>) -> nat
    decreases tiles.len(),
{
    if tiles.len() == 0 {
        0
    } else {
        tiles[0].size + total_size(tiles.drop_first())
    }
}

/// What a tile of `len` bytes counts in the memory cache: its bytes and its key.
pub open spec fn tile_size(len: nat) -> nat {
    len + vstd::layout::size_of::<TileCacheKey>()
}

/// The number of tiles that leave, from the oldest on, before a tile of a size is taken
/// in: as few as make room for it, or all.
pub open spec fn leaving(tiles: Seq<CachedTile>, current: nat, size: nat, max: nat) -> nat
    decreases tiles.len(),
{
    if current + size <= max || tiles.len() == 0 {
        0
    } else {
        1 + leaving(
            tiles.drop_first(),
            (current - tiles[0].size) as nat,
            size,
            max,
        )
    }
}

proof fn lemma_leaving(tiles: Seq<CachedTile>, current: nat, size: nat, max: nat)
    requires
        total_size(tiles) <= current,
    ensures
        leaving(tiles, current, size, max) <= tiles.len(),
        ({
            let n = leaving(tiles, current, size, max) as int;
            &&& total_size(tiles.take(n)) + total_size(tiles.skip(n)) == total_size(tiles)
            &&& n < tiles.len() ==> current - total_size(tiles.take(n)) + size <= max
        }),
    decreases tiles.len(),
{
    let n = leaving(tiles, current, size, max) as int;
    if n == 0 {
        assert(tiles.skip(0) =~= tiles);
    } else {
        let rest = tiles.drop_first();
        lemma_leaving(rest, (current - tiles[0].size) as nat, size, max);
        assert(tiles.take(n).drop_first() =~= rest.take(n - 1));
        assert(tiles.skip(n) =~= rest.skip(n - 1));
        assert(tiles.take(n)[0] == tiles[0]);
    }
}

proof fn lemma_total_push(tiles: Seq<CachedTile>, t: CachedTile)
    ensures
        total_size(tiles.push(t)) == total_size(tiles) + t.size,
    decreases tiles.len(),
{
    if tiles.len() == 0 {
        assert(tiles.push(t).drop_first() =~= tiles);
    } else {
        lemma_total_push(tiles.drop_first(), t);
        assert(tiles.push(t).drop_first() =~= tiles.drop_first().push(t));
    }
}

proof fn lemma_total_remove(tiles: Seq<CachedTile>, i: int)
    requires
        0 <= i < tiles.len(),
    ensures
        total_size(tiles.remove(i)) + tiles[i].size == total_size(tiles),
    decreases tiles.len(),
{
    if i == 0 {
        assert(tiles.remove(0) =~= tiles.drop_first());
    } else {
        lemma_total_remove(tiles.drop_first(), i - 1);
        assert(tiles.remove(i).drop_first() =~= tiles.drop_first().remove(i - 1));
    }
}

proof fn lemma_place(tiles: Seq<CachedTile>, key: KeyValue, i: int)
    requires
        0 <= i < tiles.len(),
        tiles[i].key == key,
        forall|j: int| 0 <= j < i ==> (#[trigger] tiles[j]).key != key,
    ensures
        place_of(tiles, key) == i,
    decreases i,
{
    if i > 0 {
        assert(tiles[0].key != key);
        assert forall|j: int| 0 <= j < i - 1 implies (#[trigger] tiles.drop_first()[j]).key
            != key by {
            assert(tiles[j + 1].key != key);
        }
        lemma_place(tiles.drop_first(), key, i - 1);
    }
}

/// What taking in a tile makes of a cache.
pub open spec fn inserted(before: MemCache, after: MemCache, key: KeyValue, data: Seq<u8>) -> bool {
    let size = tile_size(data.len());
    let n = leaving(before.tiles(), before.counted(), size, before.max()) as int;
    let kept = before.tiles().skip(n);
    &&& after.max() == before.max()
    &&& after.tiles() == without(kept, key).push(CachedTile { key, data, size })
    &&& after.counted() == before.counted() - total_size(before.tiles().take(n)) + size
}

/// What looking a tile up makes of a cache: a tile that is found is then the one that was
/// used last.
pub open spec fn looked_up(before: MemCache, after: MemCache, key: KeyValue) -> bool {
    &&& after.max() == before.max()
    &&& after.counted() == before.counted()
    &&& after.tiles() == (if holds(before.tiles(), key) {
        without(before.tiles(), key).push(before.tiles()[place_of(before.tiles(), key)])
    } else {
        before.tiles()
    })
}

/// What removing every tile makes of a cache.
pub open spec fn cleared(before: MemCache, after: MemCache) -> bool {
    &&& after.max() == before.max()
    &&& after.counted() == 0
    &&& after.tiles() == Seq::<CachedTile>::empty()
}

/// The data that a cache has under a key.
pub open spec fn lookup(cache: MemCache, key: KeyValue) -> Option<Seq<u8>> {
    if holds(cache.tiles(), key) {
        Some(cache.tiles()[place_of(cache.tiles(), key)].data)
    } else {
        None
    }
}

/// A tile that was taken in is found again, with its data.
pub proof fn law_insert_then_get(before: MemCache, after: MemCache, key: KeyValue, data: Seq<u8>)
    requires
        before.wf(),
        after.wf(),
        inserted(before, after, key, data),
    ensures
        lookup(after, key) == Some(data),
{
    let tiles = after.tiles();
    let last = tiles.len() - 1;
    assert(tiles[last].key == key);
    lemma_place(tiles, key, last);
}

/// A cache that took in a tile counts no more than it may hold, unless that tile is the
/// only one.
pub proof fn law_insert_bounds(before: MemCache, after: MemCache, key: KeyValue, data: Seq<u8>)
    requires
        before.wf(),
        inserted(before, after, key, data),
    ensures
        after.counted() <= after.max() || after.tiles().len() == 1,
{
    lemma_leaving(before.tiles(), before.counted(), tile_size(data.len()), before.max());
    let n = leaving(before.tiles(), before.counted(), tile_size(data.len()), before.max()) as int;
    let kept = before.tiles().skip(n);
    if n == before.tiles().len() {
        assert(kept.len() == 0);
        assert(!holds(kept, key));
    }
}

/// Where there is room for a tile, no tile under another key leaves.
pub proof fn law_insert_keeps_others(
    before: MemCache,
    after: MemCache,
    key: KeyValue,
    data: Seq<u8>,
    other: KeyValue,
)
    requires
        before.wf(),
        after.wf(),
        inserted(before, after, key, data),
        before.counted() + tile_size(data.len()) <= before.max(),
        other != key,
    ensures
        lookup(after, other) == lookup(before, other),
{
    let old_tiles = before.tiles();
    let new_tiles = after.tiles();
    assert(old_tiles.skip(0) =~= old_tiles);
    if holds(old_tiles, key) {
        let i = choose|i: int| 0 <= i < old_tiles.len() && (#[trigger] old_tiles[i]).key == key;
        lemma_place(old_tiles, key, i);
    }
    if holds(old_tiles, other) {
        let i = choose|i: int| 0 <= i < old_tiles.len() && (#[trigger] old_tiles[i]).key == other;
        lemma_place(old_tiles, other, i);
        let p = place_of(old_tiles, key);
        let j = if holds(old_tiles, key) && p < i {
            i - 1
        } else {
            i
        };
        assert(new_tiles[j] == old_tiles[i]);
        lemma_place(new_tiles, other, j);
    }
    if holds(new_tiles, other) {
        let j = choose|j: int| 0 <= j < new_tiles.len() && (#[trigger] new_tiles[j]).key == other;
        let p = place_of(old_tiles, key);
        let i = if holds(old_tiles, key) && p <= j {
            j + 1
        } else {
            j
        };
        assert(new_tiles[j] == old_tiles[i]);
    }
}

/// Looking a tile up leaves the data under every key as it was.
pub proof fn law_get_keeps_data(
    before: MemCache,
    after: MemCache,
    key: KeyValue,
    other: KeyValue,
)
    requires
        before.wf(),
        after.wf(),
        holds(before.tiles(), key),
        after.tiles() == without(before.tiles(), key).push(
            before.tiles()[place_of(before.tiles(), key)],
        ),
    ensures
        lookup(after, other) == lookup(before, other),
{
    let old_tiles = before.tiles();
    let new_tiles = after.tiles();
    let k = choose|i: int| 0 <= i < old_tiles.len() && (#[trigger] old_tiles[i]).key == key;
    lemma_place(old_tiles, key, k);
    if holds(old_tiles, other) {
        let i = choose|i: int| 0 <= i < old_tiles.len() && (#[trigger] old_tiles[i]).key == other;
        lemma_place(old_tiles, other, i);
        let j = if i == k {
            new_tiles.len() - 1
        } else if k < i {
            i - 1
        } else {
            i
        };
        assert(new_tiles[j] == old_tiles[i]);
        lemma_place(new_tiles, other, j);
    }
    if holds(new_tiles, other) {
        let j = choose|j: int| 0 <= j < new_tiles.len() && (#[trigger] new_tiles[j]).key == other;
        let i = if j == new_tiles.len() - 1 {
            k
        } else if k <= j {
            j + 1
        } else {
            j
        };
        assert(new_tiles[j] == old_tiles[i]);
    }
}

impl MemCache {
    /// The tiles of the cache, the one that was used last at the end.
    pub closed spec fn tiles(self) -> Seq<CachedTile> {
        Seq::new(self.entries@.len(), |i: int| self.entries@[i]@)
    }

    /// The bytes that the cache may hold.
    pub closed spec fn max(self) -> nat {
        self.max_bytes as nat
    }

    /// The bytes that the cache counts. Where a tile was replaced, those of the replaced
    /// tile are counted on.
    pub closed spec fn counted(self) -> nat {
        self.current_bytes as nat
    }

    /// No key occurs twice, and what is counted covers the tiles, with no more beyond them
    /// than the cache may hold.
    pub open spec fn wf(self) -> bool {
        &&& keys_distinct(self.tiles())
        &&& total_size(self.tiles()) <= self.counted() <= total_size(self.tiles()) + self.max()
        &&& forall|i: int|
            0 <= i < self.tiles().len() ==> (#[trigger] self.tiles()[i]).size == tile_size(
                self.tiles()[i].data.len(),
            )
    }

    /// An empty cache that may hold a number of megabytes.
    pub fn new(max_mb: u64) -> (cache: Self)
        requires
            max_mb * 1024 * 1024 <= u64::MAX,
        ensures
            cache.wf(),
            cache.tiles() == Seq::<CachedTile>::empty(),
            cache.max() == max_mb * 1024 * 1024,
            cache.counted() == 0,
    {
        let cache = MemCache {
            entries: Vec::new(),
            max_bytes: max_mb * 1024 * 1024,
            current_bytes: 0,
        };
        assert(cache.tiles() =~= Seq::<CachedTile>::empty());
        cache
    }

    fn find(&self, key: &TileCacheKey) -> (place: Option<usize>)
        ensures
            place is Some <==> holds(self.tiles(), key@),
            place is Some ==> place->Some_0 < self.entries@.len() && place->Some_0 == place_of(
                self.tiles(),
                key@,
            ) && self.tiles()[place->Some_0 as int].key == key@,
    {
        for i in 0..self.entries.len()
            invariant
                forall|j: int| 0 <= j < i ==> (#[trigger] self.tiles()[j]).key != key@,
        {
            if self.entries[i].key.same(key) {
                proof {
                    lemma_place(self.tiles(), key@, i as int);
                    assert(self.tiles()[i as int].key == key@);
                }
                return Some(i);
            }
        }
        None
    }

    /// The data of the tile with a key. That tile is then the one that was used last.
    pub fn get(&mut self, key: &TileCacheKey) -> (data: Option<&Vec<u8>>)
        requires
            old(self).wf(),
        ensures
            final(self).wf(),
            looked_up(*old(self), *final(self), key@),
            data is Some <==> holds(old(self).tiles(), key@),
            data is Some ==> ({
                let tile = old(self).tiles()[place_of(old(self).tiles(), key@)];
                &&& data->Some_0@ == tile.data
                &&& tile.key == key@
            }),
    {
        let ghost before = self.tiles();
        match self.find(key) {
            Some(i) => {
                let entry: MemCacheEntry = self.entries.remove(i);
                self.entries.push(entry);
                proof {
                    let tile = before[i as int];
                    assert(self.tiles() =~= before.remove(i as int).push(tile));
                    lemma_total_remove(before, i as int);
                    lemma_total_push(before.remove(i as int), tile);
                }
                let last: usize = self.entries.len() - 1;
                Some(&self.entries[last].data)
            },
            None => None,
        }
    }

    /// Takes in a tile: tiles leave, the oldest first, until there is room for it. A tile
    /// with the same key is replaced.
    pub fn insert(&mut self, key: TileCacheKey, data: Vec<u8>)
        requires
            old(self).wf(),
            old(self).max() + tile_size(data@.len()) <= u64::MAX || old(self).counted()
                + tile_size(data@.len()) <= u64::MAX,
        ensures
            final(self).wf(),
            final(self).max() == old(self).max(),
            inserted(*old(self), *final(self), key@, data@),
    {
        let size: u64 = data.len() as u64 + core::mem::size_of::<TileCacheKey>() as u64;
        let ghost before = self.tiles();
        let ghost counted = self.counted();
        let ghost mut gone: int = 0;
        proof {
            lemma_leaving(before, counted, size as nat, self.max());
            assert(before.skip(0) =~= before);
        }
        while (size > self.max_bytes || self.current_bytes > self.max_bytes - size)
            && self.entries.len() > 0
            invariant
                size == tile_size(data@.len()),
                self.max() == old(self).max(),
                self.wf(),
                self.max() + size <= u64::MAX || self.counted() + size <= u64::MAX,
                0 <= gone <= before.len(),
                before == old(self).tiles(),
                counted == old(self).counted(),
                self.tiles() == before.skip(gone),
                self.counted() == counted - total_size(before.take(gone)),
                leaving(before, counted, size as nat, self.max()) == gone + leaving(
                    self.tiles(),
                    self.counted(),
                    size as nat,
                    self.max(),
                ),
            decreases self.entries@.len(),
        {
            let ghost now = self.tiles();
            let removed: MemCacheEntry = self.entries.remove(0);
            proof {
                assert(removed@ == now[0]);
                assert(self.tiles() =~= now.drop_first());
                assert(before.skip(gone).drop_first() =~= before.skip(gone + 1));
                assert(before.take(gone + 1) =~= before.take(gone).push(now[0]));
                lemma_total_push(before.take(gone), now[0]);
                assert forall|i: int| 0 <= i < self.tiles().len() implies (
                #[trigger] self.tiles()[i]).size == tile_size(self.tiles()[i].data.len()) by {
                    assert(self.tiles()[i] == now[i + 1]);
                }
                assert(keys_distinct(self.tiles())) by {
                    assert forall|i: int, j: int|
                        0 <= i < self.tiles().len() && 0 <= j < self.tiles().len() && i
                            != j implies (#[trigger] self.tiles()[i]).key != (
                    #[trigger] self.tiles()[j]).key by {
                        assert(self.tiles()[i] == now[i + 1]);
                        assert(self.tiles()[j] == now[j + 1]);
                    }
                }
                gone = gone + 1;
            }
            self.current_bytes = self.current_bytes.saturating_sub(removed.size);
        }
        let ghost kept = self.tiles();
        self.current_bytes = self.current_bytes + size;
        match self.find(&key) {
            Some(i) => {
                let _replaced: MemCacheEntry = self.entries.remove(i);
                proof {
                    assert(self.tiles() =~= kept.remove(i as int));
                    lemma_total_remove(kept, i as int);
                }
            },
            None => {},
        }
        let ghost rest = self.tiles();
        let ghost tile = CachedTile { key: key@, data: data@, size: size as nat };
        self.entries.push(MemCacheEntry { key, data, size });
        proof {
            assert(rest == without(kept, tile.key));
            assert(self.tiles() =~= rest.push(tile));
            lemma_total_push(rest, tile);
            if holds(kept, tile.key) {
                let p = place_of(kept, tile.key);
                assert forall|i: int| 0 <= i < rest.len() implies (#[trigger] rest[i]).key
                    != tile.key by {
                    assert(rest[i] == kept[if i < p {
                        i
                    } else {
                        i + 1
                    }]);
                    assert(kept[p].key == tile.key);
                }
            }
        }
    }

    /// Removes every tile.
    pub fn clear(&mut self)
        ensures
            final(self).wf(),
            cleared(*old(self), *final(self)),
    {
        self.entries.clear();
        self.current_bytes = 0;
        assert(self.tiles() =~= Seq::<CachedTile>::empty());
    }

    /// The bytes that the cache counts.
    pub fn size_bytes(&self) -> (n: u64)
        ensures
            n == self.counted(),
    {
        self.current_bytes
    }

    /// The number of tiles.
    pub fn len(&self) -> (n: usize)
        ensures
            n == self.tiles().len(),
    {
        self.entries.len()
    }
}

// ─── Many calls on the memory cache ───

/// A call on the memory cache.
pub enum CacheStep {
    Insert(KeyValue, Seq<u8>),
    Get(KeyValue),
    Clear,
}

/// What a call makes of a cache.
pub open spec fn is_step(before: MemCache, step: CacheStep, after: MemCache) -> bool {
    match step {
        CacheStep::Insert(key, data) => inserted(before, after, key, data),
        CacheStep::Get(key) => looked_up(before, after, key),
        CacheStep::Clear => cleared(before, after),
    }
}

/// `states` are those of a cache before, between and after calls.
pub open spec fn is_run(states: Seq<MemCache>, steps: Seq<CacheStep>) -> bool {
    &&& states.len() == steps.len() + 1
    &&& forall|i: int| 0 <= i < states.len() ==> (#[trigger] states[i]).wf()
    &&& forall|i: int|
        0 <= i < steps.len() ==> is_step(states[i], #[trigger] steps[i], states[i + 1])
}

/// A cache is as it was made.
pub open spec fn is_new(cache: MemCache) -> bool {
    cache.tiles().len() == 0 && cache.counted() == 0
}

proof fn lemma_found(tiles: Seq<CachedTile>, key: KeyValue)
    requires
        holds(tiles, key),
    ensures
        0 <= place_of(tiles, key) < tiles.len(),
        tiles[place_of(tiles, key)].key == key,
        forall|j: int| 0 <= j < place_of(tiles, key) ==> (#[trigger] tiles[j]).key != key,
    decreases tiles.len(),
{
    let i = choose|i: int| 0 <= i < tiles.len() && (#[trigger] tiles[i]).key == key;
    if tiles[0].key != key {
        let rest = tiles.drop_first();
        assert(rest[i - 1].key == key);
        lemma_found(rest, key);
        assert(tiles[place_of(tiles, key)] == rest[place_of(rest, key)]);
        assert forall|j: int| 0 <= j < place_of(tiles, key) implies (#[trigger] tiles[j]).key
            != key by {
            if j > 0 {
                assert(tiles[j] == rest[j - 1]);
            }
        }
    }
}

proof fn lemma_run_max(states: Seq<MemCache>, steps: Seq<CacheStep>, i: int)
    requires
        is_run(states, steps),
        0 <= i < states.len(),
    ensures
        states[i].max() == states[0].max(),
    decreases i,
{
    if i > 0 {
        lemma_run_max(states, steps, i - 1);
        assert(is_step(states[i - 1], steps[i - 1], states[i]));
    }
}

/// After any calls on a new cache, it counts no more than it may hold, unless it holds a
/// single tile; what it counts covers the tiles, each with its bytes and its key; and the
/// tile that was taken in last is there.
pub proof fn law_cache_stays_in_bounds(states: Seq<MemCache>, steps: Seq<CacheStep>, i: int)
    requires
        is_run(states, steps),
        is_new(states[0]),
        0 <= i < states.len(),
    ensures
        states[i].max() == states[0].max(),
        states[i].counted() <= states[0].max() || states[i].tiles().len() == 1,
        total_size(states[i].tiles()) <= states[i].counted(),
        forall|k: int|
            0 <= k < states[i].tiles().len() ==> (#[trigger] states[i].tiles()[k]).size
                == tile_size(states[i].tiles()[k].data.len()),
        i > 0 ==> match steps[i - 1] {
            CacheStep::Insert(key, data) => lookup(states[i], key) == Some(data),
            _ => true,
        },
    decreases i,
{
    lemma_run_max(states, steps, i);
    assert(states[i].wf());
    if i > 0 {
        law_cache_stays_in_bounds(states, steps, i - 1);
        assert(is_step(states[i - 1], steps[i - 1], states[i]));
        assert(states[i - 1].wf());
        match steps[i - 1] {
            CacheStep::Insert(key, data) => {
                law_insert_bounds(states[i - 1], states[i], key, data);
                law_insert_then_get(states[i - 1], states[i], key, data);
            },
            CacheStep::Get(key) => {
                if holds(states[i - 1].tiles(), key) {
                    lemma_found(states[i - 1].tiles(), key);
                }
            },
            CacheStep::Clear => {},
        }
    }
}

/// A tile that was taken in is found, with its data, after any number of lookups. They
/// change neither the number of tiles, nor what is counted, nor the data under any key. A
/// tile that is found is then the one that was used last, and one that is not found leaves
/// the order as it was.
pub proof fn law_found_after_lookups(
    before: MemCache,
    key: KeyValue,
    data: Seq<u8>,
    states: Seq<MemCache>,
    steps: Seq<CacheStep>,
    other: KeyValue,
    i: int,
)
    requires
        before.wf(),
        is_run(states, steps),
        inserted(before, states[0], key, data),
        forall|k: int| 0 <= k < steps.len() ==> (#[trigger] steps[k]) is Get,
        0 <= i < states.len(),
    ensures
        lookup(states[i], key) == Some(data),
        lookup(states[i], other) == lookup(states[0], other),
        states[i].tiles().len() == states[0].tiles().len(),
        states[i].counted() == states[0].counted(),
        i > 0 && holds(states[i - 1].tiles(), steps[i - 1]->Get_0) ==> states[i].tiles().last().key
            == steps[i - 1]->Get_0,
        i > 0 && !holds(states[i - 1].tiles(), steps[i - 1]->Get_0) ==> states[i].tiles()
            == states[i - 1].tiles(),
    decreases i,
{
    assert(states[i].wf());
    if i == 0 {
        law_insert_then_get(before, states[0], key, data);
    } else {
        law_found_after_lookups(before, key, data, states, steps, other, i - 1);
        let (old_state, new_state) = (states[i - 1], states[i]);
        assert(steps[i - 1] is Get);
        assert(is_step(old_state, steps[i - 1], new_state));
        assert(old_state.wf());
        let k = steps[i - 1]->Get_0;
        if holds(old_state.tiles(), k) {
            lemma_found(old_state.tiles(), k);
            law_get_keeps_data(old_state, new_state, k, key);
            law_get_keeps_data(old_state, new_state, k, other);
        }
    }
}

/// No two of the first `n` calls take in a tile under the same key.
pub open spec fn inserts_differ(steps: Seq<CacheStep>, n: int) -> bool {
    forall|i: int, j: int|
        0 <= i < j < n && (#[trigger] steps[i]) is Insert && (#[trigger] steps[j]) is Insert
            ==> steps[i]->Insert_0 != steps[j]->Insert_0
}

/// One of the first `n` calls takes in a tile under a key.
pub open spec fn was_inserted(steps: Seq<CacheStep>, n: int, key: KeyValue) -> bool {
    exists|j: int|
        0 <= j < n && (#[trigger] steps[j]) is Insert && steps[j]->Insert_0 == key
}

proof fn lemma_kept(tiles: Seq<CachedTile>, n: int, key: KeyValue)
    requires
        0 <= n <= tiles.len(),
        !holds(tiles, key),
    ensures
        !holds(tiles.skip(n), key),
{
    if holds(tiles.skip(n), key) {
        let i = choose|i: int|
            0 <= i < tiles.skip(n).len() && (#[trigger] tiles.skip(n)[i]).key == key;
        assert(tiles[i + n].key == key);
    }
}

proof fn lemma_held_was_inserted(states: Seq<MemCache>, steps: Seq<CacheStep>, i: int, p: int)
    requires
        is_run(states, steps),
        is_new(states[0]),
        0 <= i < states.len(),
        0 <= p < states[i].tiles().len(),
    ensures
        was_inserted(steps, i, states[i].tiles()[p].key),
    decreases i,
{
    if i > 0 {
        let (before, after) = (states[i - 1], states[i]);
        assert(is_step(before, steps[i - 1], after));
        assert(before.wf());
        let key = after.tiles()[p].key;
        match steps[i - 1] {
            CacheStep::Insert(k, data) => {
                let size = tile_size(data.len());
                lemma_leaving(before.tiles(), before.counted(), size, before.max());
                let n = leaving(before.tiles(), before.counted(), size, before.max()) as int;
                let kept = before.tiles().skip(n);
                if key == k {
                    assert(steps[i - 1] is Insert);
                } else {
                    if holds(kept, k) {
                        lemma_found(kept, k);
                    }
                    let q = if holds(kept, k) && place_of(kept, k) <= p {
                        p + 1
                    } else {
                        p
                    };
                    assert(after.tiles()[p] == kept[q]);
                    assert(kept[q] == before.tiles()[q + n]);
                    lemma_held_was_inserted(states, steps, i - 1, q + n);
                    let j = choose|j: int|
                        0 <= j < i - 1 && (#[trigger] steps[j]) is Insert && steps[j]->Insert_0
                            == key;
                    assert(steps[j] is Insert);
                }
            },
            CacheStep::Get(k) => {
                let q = if !holds(before.tiles(), k) {
                    p
                } else {
                    lemma_found(before.tiles(), k);
                    if p == before.tiles().len() - 1 {
                        place_of(before.tiles(), k)
                    } else if place_of(before.tiles(), k) <= p {
                        p + 1
                    } else {
                        p
                    }
                };
                assert(after.tiles()[p] == before.tiles()[q]);
                lemma_held_was_inserted(states, steps, i - 1, q);
                let j = choose|j: int|
                    0 <= j < i - 1 && (#[trigger] steps[j]) is Insert && steps[j]->Insert_0 == key;
                assert(steps[j] is Insert);
            },
            CacheStep::Clear => {},
        }
    }
}

proof fn lemma_exact_insert(before: MemCache, after: MemCache, key: KeyValue, data: Seq<u8>)
    requires
        before.wf(),
        inserted(before, after, key, data),
        !holds(before.tiles(), key),
        before.counted() == total_size(before.tiles()),
    ensures
        after.counted() == total_size(after.tiles()),
{
    let size = tile_size(data.len());
    lemma_leaving(before.tiles(), before.counted(), size, before.max());
    let n = leaving(before.tiles(), before.counted(), size, before.max()) as int;
    lemma_kept(before.tiles(), n, key);
    lemma_total_push(before.tiles().skip(n), CachedTile { key, data, size });
}

/// After calls on a new cache that take in tiles under different keys, what the cache
/// counts is the sum of the sizes of the tiles that it holds.
pub proof fn law_count_is_exact(states: Seq<MemCache>, steps: Seq<CacheStep>, i: int)
    requires
        is_run(states, steps),
        is_new(states[0]),
        inserts_differ(steps, steps.len() as int),
        0 <= i < states.len(),
    ensures
        states[i].counted() == total_size(states[i].tiles()),
        states[i].tiles().len() == 0 ==> states[i].counted() == 0,
    decreases i,
{
    if i > 0 {
        law_count_is_exact(states, steps, i - 1);
        let (before, after) = (states[i - 1], states[i]);
        assert(is_step(before, steps[i - 1], after));
        assert(before.wf());
        match steps[i - 1] {
            CacheStep::Insert(key, data) => {
                if holds(before.tiles(), key) {
                    lemma_found(before.tiles(), key);
                    lemma_held_was_inserted(states, steps, i - 1, place_of(before.tiles(), key));
                    let j = choose|j: int|
                        0 <= j < i - 1 && (#[trigger] steps[j]) is Insert && steps[j]->Insert_0
                            == key;
                    assert(steps[j] is Insert && steps[i - 1] is Insert);
                }
                lemma_exact_insert(before, after, key, data);
            },
            CacheStep::Get(key) => {
                if holds(before.tiles(), key) {
                    lemma_found(before.tiles(), key);
                    let p = place_of(before.tiles(), key);
                    lemma_total_remove(before.tiles(), p);
                    lemma_total_push(before.tiles().remove(p), before.tiles()[p]);
                }
            },
            CacheStep::Clear => {},
        }
    }
}

/// A call uses the tile under a key.
pub open spec fn uses(step: CacheStep, key: KeyValue) -> bool {
    match step {
        CacheStep::Insert(k, _) => k == key,
        CacheStep::Get(k) => k == key,
        CacheStep::Clear => false,
    }
}

/// The last of the first `n` calls that uses the tile under a key, or -1.
pub open spec fn last_use(steps: Seq<CacheStep>, n: nat, key: KeyValue) -> int
    decreases n,
{
    if n == 0 {
        -1
    } else if uses(steps[n - 1], key) {
        n - 1
    } else {
        last_use(steps, (n - 1) as nat, key)
    }
}

proof fn lemma_last_use(steps: Seq<CacheStep>, n: nat, key: KeyValue)
    ensures
        last_use(steps, n, key) < n,
    decreases n,
{
    if n > 0 {
        lemma_last_use(steps, (n - 1) as nat, key);
    }
}

/// The tiles of a cache stand in the order of their last uses.
pub proof fn law_tiles_stand_in_order_of_use(
    states: Seq<MemCache>,
    steps: Seq<CacheStep>,
    i: int,
    a: int,
    b: int,
)
    requires
        is_run(states, steps),
        is_new(states[0]),
        0 <= i < states.len(),
        0 <= a < b < states[i].tiles().len(),
    ensures
        last_use(steps, i as nat, states[i].tiles()[a].key) < last_use(
            steps,
            i as nat,
            states[i].tiles()[b].key,
        ),
    decreases i,
{
    if i > 0 {
        let (before, after) = (states[i - 1], states[i]);
        assert(is_step(before, steps[i - 1], after));
        assert(before.wf() && after.wf());
        let (ka, kb) = (after.tiles()[a].key, after.tiles()[b].key);
        lemma_last_use(steps, (i - 1) as nat, ka);
        assert(ka != kb);
        let last = after.tiles().len() - 1;
        assert(after.tiles()[a].key != after.tiles()[last].key);
        match steps[i - 1] {
            CacheStep::Insert(k, data) => {
                let size = tile_size(data.len());
                lemma_leaving(before.tiles(), before.counted(), size, before.max());
                let n = leaving(before.tiles(), before.counted(), size, before.max()) as int;
                let kept = before.tiles().skip(n);
                if holds(kept, k) {
                    lemma_found(kept, k);
                }
                assert(after.tiles()[last].key == k);
                let p = place_of(kept, k);
                let qa = if holds(kept, k) && p <= a {
                    a + 1
                } else {
                    a
                };
                assert(after.tiles()[a] == before.tiles()[qa + n]);
                if b < last {
                    let qb = if holds(kept, k) && p <= b {
                        b + 1
                    } else {
                        b
                    };
                    assert(after.tiles()[b] == before.tiles()[qb + n]);
                    assert(after.tiles()[b].key != after.tiles()[last].key);
                    law_tiles_stand_in_order_of_use(states, steps, i - 1, qa + n, qb + n);
                }
            },
            CacheStep::Get(k) => {
                if holds(before.tiles(), k) {
                    lemma_found(before.tiles(), k);
                    let p = place_of(before.tiles(), k);
                    assert(after.tiles()[last].key == k);
                    let qa = if p <= a {
                        a + 1
                    } else {
                        a
                    };
                    assert(after.tiles()[a] == before.tiles()[qa]);
                    if b < last {
                        let qb = if p <= b {
                            b + 1
                        } else {
                            b
                        };
                        assert(after.tiles()[b] == before.tiles()[qb]);
                        assert(after.tiles()[b].key != after.tiles()[last].key);
                        law_tiles_stand_in_order_of_use(states, steps, i - 1, qa, qb);
                    }
                } else {
                    assert(ka != k && kb != k) by {
                        assert(before.tiles()[a].key == ka);
                        assert(before.tiles()[b].key == kb);
                    }
                    law_tiles_stand_in_order_of_use(states, steps, i - 1, a, b);
                }
            },
            CacheStep::Clear => {},
        }
    }
}

proof fn lemma_leaving_is_least(tiles: Seq<CachedTile>, current: nat, size: nat, max: nat)
    requires
        current == total_size(tiles),
    ensures
        ({
            let n = leaving(tiles, current, size, max) as int;
            &&& 0 <= n <= tiles.len()
            &&& n > 0 ==> total_size(tiles.skip(n - 1)) + size > max
            &&& n < tiles.len() ==> total_size(tiles.skip(n)) + size <= max
        }),
    decreases tiles.len(),
{
    let n = leaving(tiles, current, size, max) as int;
    assert(tiles.skip(0) =~= tiles);
    if n > 0 {
        let rest = tiles.drop_first();
        lemma_leaving_is_least(rest, (current - tiles[0].size) as nat, size, max);
        assert(rest.skip(n - 1) =~= tiles.skip(n));
        if n > 1 {
            assert(rest.skip(n - 2) =~= tiles.skip(n - 1));
        }
    }
}

/// Where a cache counts its tiles exactly and takes in a tile under a new key, the tiles
/// that leave are the first ones, which were not used for the longest time, and as few as
/// there can be: none where there is room, all where the tile alone is too large, and
/// keeping one more would be too much. Every other tile stays as it was.
pub proof fn law_fewest_oldest_leave(
    before: MemCache,
    after: MemCache,
    key: KeyValue,
    data: Seq<u8>,
)
    requires
        before.wf(),
        inserted(before, after, key, data),
        !holds(before.tiles(), key),
        before.counted() == total_size(before.tiles()),
    ensures
        ({
            let size = tile_size(data.len());
            let tile = CachedTile { key, data, size };
            let n = before.tiles().len() + 1 - after.tiles().len();
            &&& 0 <= n <= before.tiles().len()
            &&& after.tiles() == before.tiles().skip(n).push(tile)
            &&& before.counted() + size <= before.max() ==> n == 0
            &&& n > 0 ==> total_size(before.tiles().skip(n - 1)) + size > before.max()
            &&& size > before.max() ==> n == before.tiles().len()
        }),
{
    let size = tile_size(data.len());
    lemma_leaving(before.tiles(), before.counted(), size, before.max());
    lemma_leaving_is_least(before.tiles(), before.counted(), size, before.max());
    let n = leaving(before.tiles(), before.counted(), size, before.max()) as int;
    lemma_kept(before.tiles(), n, key);
}

/// The bytes at each end of a file that its content hash covers.
pub const CONTENT_HASH_READ_SIZE: u64 = 4096;

/// The parts of a file that its content hash covers: the length of the head, and the
/// start of the tail where the file is longer than the head.
pub fn content_windows(file_size: u64) -> (w: (u64, Option<u64>))
    ensures
        w.0 == (if file_size < CONTENT_HASH_READ_SIZE {
            file_size
        } else {
            CONTENT_HASH_READ_SIZE
        }),
        w.1 == (if file_size > CONTENT_HASH_READ_SIZE {
            Some((file_size - CONTENT_HASH_READ_SIZE) as u64)
        } else {
            None
        }),
{
    if file_size > CONTENT_HASH_READ_SIZE {
        (CONTENT_HASH_READ_SIZE, Some(file_size - CONTENT_HASH_READ_SIZE))
    } else {
        (file_size, None)
    }
}

/// What was read of a file for its content hash. The head is empty only where the file
/// is, and there is a tail only where the file is longer than the head.
pub struct FileWindows {
    pub file_size: u64,
    pub head: Vec<u8>,
    pub tail: Option<Vec<u8>>,
}

/// What is written to a hasher for a run of bytes: its length and the bytes.
pub open spec fn hashed_bytes(bytes: Seq<u8>) -> Seq<Seq<u8>> {
    seq![vstd::bytes::spec_u64_to_le_bytes(bytes.len() as u64), bytes]
}

/// What is written to a hasher for a file.
pub open spec fn hashed_windows(w: FileWindows) -> Seq<Seq<u8>> {
    seq![vstd::bytes::spec_u64_to_le_bytes(w.file_size)] + (if w.head@.len() > 0 {
        hashed_bytes(w.head@)
    } else {
        Seq::empty()
    }) + (match w.tail {
        Some(tail) => hashed_bytes(tail@),
        None => Seq::empty(),
    })
}

/// The text of the hash of what was written to a hasher.
pub open spec fn hash_text(written: Seq<Seq<u8>>) -> Seq<char> {
    crate::numbers::hex(
        <DefaultHasher as vstd::std_specs::hash::DefaultHasherAdditionalSpecFns>::spec_finish(
            written,
        ) as nat,
        16,
    )
}

fn hash_bytes(hasher: &mut DefaultHasher, bytes: &[u8])
    ensures
        final(hasher)@ == old(hasher)@ + hashed_bytes(bytes@),
{
    let len: Vec<u8> = vstd::bytes::u64_to_le_bytes(bytes.len() as u64);
    hasher.write(len.as_slice());
    hasher.write(bytes);
    assert(hasher@ =~= old(hasher)@ + hashed_bytes(bytes@));
}

/// The content hash of a file: of its size, its head and its tail.
pub fn file_content_hash(w: &FileWindows) -> (hash: String)
    ensures
        hash@ == hash_text(hashed_windows(*w)),
{
    let mut hasher: DefaultHasher = DefaultHasher::new();
    let size: Vec<u8> = vstd::bytes::u64_to_le_bytes(w.file_size);
    hasher.write(size.as_slice());
    if w.head.len() > 0 {
        hash_bytes(&mut hasher, w.head.as_slice());
    }
    match &w.tail {
        Some(tail) => {
            hash_bytes(&mut hasher, tail.as_slice());
        },
        None => {},
    }
    assert(hasher@ =~= hashed_windows(*w));
    hex16(hasher.finish())
}

/// What is written to a hasher for a path.
pub open spec fn hashed_path(path: Seq<u8>) -> Seq<Seq<u8>> {
    seq![path, seq![0xFFu8]]
}

/// The hash that stands for a file that cannot be read: that of its path.
pub fn path_hash(path: &str) -> (hash: String)
    ensures
        hash@ == hash_text(hashed_path(path.spec_bytes())),
{
    let mut hasher: DefaultHasher = DefaultHasher::new();
    hasher.write(path.as_bytes());
    let end: Vec<u8> = vec![0xFFu8];
    hasher.write(end.as_slice());
    assert(end@ =~= seq![0xFFu8]);
    assert(hasher@ =~= hashed_path(path.spec_bytes()));
    hex16(hasher.finish())
}

/// What was read of a file, where it could be read.
pub open spec fn windows_of(windows: Option<&FileWindows>) -> Option<FileWindows> {
    match windows {
        Some(w) => Some(*w),
        None => None,
    }
}

/// A request for the content hash of the file at a path, given by its characters and its
/// bytes, with what could be read of the file.
pub struct HashCall {
    pub path: Seq<char>,
    pub bytes: Seq<u8>,
    pub windows: Option<FileWindows>,
}

/// What a request makes of the known hashes, and the hash that it gives.
pub open spec fn hashed_call(
    before: Map<Seq<char>, String>,
    after: Map<Seq<char>, String>,
    call: HashCall,
    hash: Seq<char>,
) -> bool {
    if before.dom().contains(call.path) {
        hash == before[call.path]@ && after == before
    } else {
        match call.windows {
            Some(w) => {
                &&& hash == hash_text(hashed_windows(w))
                &&& after.dom() == before.dom().insert(call.path)
                &&& after[call.path]@ == hash
                &&& forall|p: Seq<char>|
                    before.dom().contains(p) ==> #[trigger] after[p] == before[p]
            },
            None => hash == hash_text(hashed_path(call.bytes)) && after == before,
        }
    }
}

/// The hashes that requests give, and the known hashes before, between and after them.
pub open spec fn are_hashed(
    known: Seq<Map<Seq<char>, String>>,
    calls: Seq<HashCall>,
    hashes: Seq<Seq<char>>,
) -> bool {
    &&& known.len() == calls.len() + 1
    &&& hashes.len() == calls.len()
    &&& forall|i: int|
        0 <= i < calls.len() ==> hashed_call(
            known[i],
            known[i + 1],
            #[trigger] calls[i],
            hashes[i],
        )
}

/// A text is made of sixteen hexadecimal digits, none of them a capital letter.
pub open spec fn is_hex16(s: Seq<char>) -> bool {
    s.len() == 16 && forall|i: int|
        0 <= i < s.len() ==> ('0' <= #[trigger] s[i] && s[i] <= '9') || ('a' <= s[i] && s[i]
            <= 'f')
}

proof fn lemma_hex_digits(n: nat, width: nat)
    ensures
        crate::numbers::hex(n, width).len() == width,
        forall|i: int|
            0 <= i < width ==> ('0' <= #[trigger] crate::numbers::hex(n, width)[i]
                && crate::numbers::hex(n, width)[i] <= '9') || ('a' <= crate::numbers::hex(
                n,
                width,
            )[i] && crate::numbers::hex(n, width)[i] <= 'f'),
    decreases width,
{
    if width > 0 {
        lemma_hex_digits(n / 16, (width - 1) as nat);
        let before = crate::numbers::hex(n / 16, (width - 1) as nat);
        let all = crate::numbers::hex(n, width);
        assert forall|i: int| 0 <= i < width implies ('0' <= #[trigger] all[i] && all[i] <= '9')
            || ('a' <= all[i] && all[i] <= 'f') by {
            if i < width - 1 {
                assert(all[i] == before[i]);
            }
        }
    }
}

proof fn lemma_known_stays(
    known: Seq<Map<Seq<char>, String>>,
    calls: Seq<HashCall>,
    hashes: Seq<Seq<char>>,
    i: int,
    j: int,
    path: Seq<char>,
)
    requires
        are_hashed(known, calls, hashes),
        0 <= i <= j < known.len(),
        known[i].dom().contains(path),
    ensures
        known[j].dom().contains(path),
        known[j][path] == known[i][path],
    decreases j - i,
{
    if i < j {
        lemma_known_stays(known, calls, hashes, i, j - 1, path);
        assert(hashed_call(known[j - 1], known[j], calls[j - 1], hashes[j - 1]));
    }
}

/// The hash that a file had when it was first read is given for its path ever after,
/// whatever becomes of the file.
pub proof fn law_hash_stays(
    known: Seq<Map<Seq<char>, String>>,
    calls: Seq<HashCall>,
    hashes: Seq<Seq<char>>,
    i: int,
    j: int,
)
    requires
        are_hashed(known, calls, hashes),
        0 <= i <= j < calls.len(),
        calls[i].path == calls[j].path,
        calls[i].windows is Some || known[i].dom().contains(calls[i].path),
    ensures
        hashes[j] == hashes[i],
{
    if i < j {
        assert(hashed_call(known[i], known[i + 1], calls[i], hashes[i]));
        assert(known[i + 1].dom().contains(calls[i].path));
        lemma_known_stays(known, calls, hashes, i + 1, j, calls[i].path);
        assert(hashed_call(known[j], known[j + 1], calls[j], hashes[j]));
    }
}

proof fn lemma_known_are_hashes(
    known: Seq<Map<Seq<char>, String>>,
    calls: Seq<HashCall>,
    hashes: Seq<Seq<char>>,
    i: int,
    path: Seq<char>,
)
    requires
        are_hashed(known, calls, hashes),
        known[0].dom() == Set::<Seq<char>>::empty(),
        0 <= i < known.len(),
        known[i].dom().contains(path),
    ensures
        is_hex16(known[i][path]@),
        exists|k: int| 0 <= k < i && (#[trigger] calls[k]).path == path && calls[k].windows is Some,
    decreases i,
{
    assert(hashed_call(known[i - 1], known[i], calls[i - 1], hashes[i - 1]));
    if known[i - 1].dom().contains(path) {
        lemma_known_are_hashes(known, calls, hashes, i - 1, path);
        let k = choose|k: int|
            0 <= k < i - 1 && (#[trigger] calls[k]).path == path && calls[k].windows is Some;
        assert(calls[k].path == path);
    } else {
        assert(calls[i - 1].path == path);
        lemma_hash_text(hashed_windows(calls[i - 1].windows->Some_0));
    }
}

proof fn lemma_hash_text(written: Seq<Seq<u8>>)
    ensures
        is_hex16(hash_text(written)),
{
    lemma_hex_digits(
        <DefaultHasher as vstd::std_specs::hash::DefaultHasherAdditionalSpecFns>::spec_finish(
            written,
        ) as nat,
        16,
    );
}

/// Every hash has sixteen digits. That of a path that could never be read depends on the
/// path alone, and is not remembered.
pub proof fn law_hashes_are_digits(
    known: Seq<Map<Seq<char>, String>>,
    calls: Seq<HashCall>,
    hashes: Seq<Seq<char>>,
    i: int,
)
    requires
        are_hashed(known, calls, hashes),
        known[0].dom() == Set::<Seq<char>>::empty(),
        0 <= i < calls.len(),
    ensures
        is_hex16(hashes[i]),
        (forall|k: int|
            0 <= k <= i && (#[trigger] calls[k]).path == calls[i].path ==> calls[k].windows
                is None) ==> hashes[i] == hash_text(hashed_path(calls[i].bytes)) && !known[i
            + 1].dom().contains(calls[i].path),
{
    assert(hashed_call(known[i], known[i + 1], calls[i], hashes[i]));
    if known[i].dom().contains(calls[i].path) {
        lemma_known_are_hashes(known, calls, hashes, i, calls[i].path);
        let k = choose|k: int|
            0 <= k < i && (#[trigger] calls[k]).path == calls[i].path && calls[k].windows is Some;
        assert(calls[k].path == calls[i].path);
    } else {
        match calls[i].windows {
            Some(w) => {
                lemma_hash_text(hashed_windows(w));
                assert(calls[i].path == calls[i].path);
            },
            None => {
                lemma_hash_text(hashed_path(calls[i].bytes));
            },
        }
    }
}

/// The content hash of the file at a path: the one that is known, else that of what was
/// read of the file, which is then known. A file that could not be read has the hash of
/// its path, and stays unknown.
pub fn get_content_hash(
    known: &mut Table<String>,
    path: &str,
    windows: Option<&FileWindows>,
) -> (hash: String)
    requires
        old(known).wf(),
    ensures
        final(known).wf(),
        hashed_call(
            old(known)@,
            final(known)@,
            HashCall { path: path@, bytes: path.spec_bytes(), windows: windows_of(windows) },
            hash@,
        ),
{
    match known.get(path) {
        Some(hash) => {
            return hash.as_str().to_owned();
        },
        None => {},
    }
    match windows {
        Some(w) => {
            let hash: String = file_content_hash(w);
            let copy: String = hash.as_str().to_owned();
            known.insert(path, copy);
            hash
        },
        None => path_hash(path),
    }
}

/// The path of a tile below the directory of the disk cache.
pub open spec fn tile_path(
    hash: Seq<char>,
    z: u32,
    x: u32,
    y: u32,
    resampling: ResamplingMode,
    is_webp: bool,
) -> Seq<Seq<char>> {
    seq![
        hash + "_"@ + crate::numbers::decimal(resampling.number() as nat),
        crate::numbers::decimal(z as nat),
        crate::numbers::decimal(x as nat),
        crate::numbers::decimal(y as nat) + "."@ + (if is_webp {
            "webp"@
        } else {
            "png"@
        }),
    ]
}

/// The path of a tile below the directory of the disk cache, as its parts.
pub fn tile_cache_path(
    hash: &str,
    z: u32,
    x: u32,
    y: u32,
    resampling: ResamplingMode,
    is_webp: bool,
) -> (parts: Vec<String>)
    ensures
        crate::text::texts(parts@) == tile_path(hash@, z, x, y, resampling, is_webp),
{
    let mode: String = decimal_text(resampling.code() as u64);
    let ext: &str = if is_webp {
        "webp"
    } else {
        "png"
    };
    let name: String = decimal_text(y as u64);
    let mut parts: Vec<String> = Vec::new();
    parts.push(concat3(hash, "_", mode.as_str()));
    parts.push(decimal_text(z as u64));
    parts.push(decimal_text(x as u64));
    parts.push(concat3(name.as_str(), ".", ext));
    assert(crate::text::texts(parts@) =~= tile_path(hash@, z, x, y, resampling, is_webp));
    parts
}

/// Different tiles of different layers, modes or formats have different paths.
pub proof fn law_tile_paths_differ(
    hash1: Seq<char>,
    z1: u32,
    x1: u32,
    y1: u32,
    mode1: ResamplingMode,
    webp1: bool,
    hash2: Seq<char>,
    z2: u32,
    x2: u32,
    y2: u32,
    mode2: ResamplingMode,
    webp2: bool,
)
    requires
        tile_path(hash1, z1, x1, y1, mode1, webp1) == tile_path(hash2, z2, x2, y2, mode2, webp2),
    ensures
        hash1 == hash2,
        z1 == z2 && x1 == x2 && y1 == y2,
        mode1 == mode2,
        webp1 == webp2,
{
    reveal_strlit("_");
    reveal_strlit(".");
    reveal_strlit("webp");
    reveal_strlit("png");
    let p1 = tile_path(hash1, z1, x1, y1, mode1, webp1);
    let p2 = tile_path(hash2, z2, x2, y2, mode2, webp2);
    crate::numbers::law_decimal_injective(z1 as nat, z2 as nat);
    crate::numbers::law_decimal_injective(x1 as nat, x2 as nat);
    let m1 = crate::numbers::decimal(mode1.number() as nat);
    let m2 = crate::numbers::decimal(mode2.number() as nat);
    assert(m1.len() == 1 && m2.len() == 1);
    assert(p1[0].last() == m1[0]);
    assert(p2[0].last() == m2[0]);
    assert(m1 =~= m2);
    crate::numbers::law_decimal_injective(mode1.number() as nat, mode2.number() as nat);
    crate::resample::law_mode_numbers_differ(mode1, mode2);
    assert(p1[0].take(hash1.len() as int) =~= hash1);
    assert(p2[0].take(hash2.len() as int) =~= hash2);
    assert(p1[3].last() == (if webp1 {
        'p'
    } else {
        'g'
    }));
    assert(p2[3].last() == (if webp2 {
        'p'
    } else {
        'g'
    }));
    let d1 = crate::numbers::decimal(y1 as nat);
    let d2 = crate::numbers::decimal(y2 as nat);
    assert(p1[3].take(d1.len() as int) =~= d1);
    assert(p2[3].take(d2.len() as int) =~= d2);
    crate::numbers::law_decimal_injective(y1 as nat, y2 as nat);
}

/// A tile of a layer in a mode and a format.
pub struct TileName {
    pub hash: Seq<char>,
    pub z: u32,
    pub x: u32,
    pub y: u32,
    pub mode: ResamplingMode,
    pub webp: bool,
}

impl TileName {
    /// The path of the tile.
    pub open spec fn path(self) -> Seq<Seq<char>> {
        tile_path(self.hash, self.z, self.x, self.y, self.mode, self.webp)
    }
}

/// The files of a directory, by their paths, after tiles were written to it.
pub open spec fn disk_after(
    disk: Map<Seq<Seq<char>>, Seq<u8>>,
    writes: Seq<(TileName, Seq<u8>)>,
) -> Map<Seq<Seq<char>>, Seq<u8>>
    decreases writes.len(),
{
    if writes.len() == 0 {
        disk
    } else {
        disk_after(disk, writes.drop_last()).insert(writes.last().0.path(), writes.last().1)
    }
}

/// A tile that was written is read back as it was, after any number of writes of other
/// tiles: tiles in two formats or two modes do not overwrite each other.
pub proof fn law_written_tile_is_read_back(
    disk: Map<Seq<Seq<char>>, Seq<u8>>,
    writes: Seq<(TileName, Seq<u8>)>,
    i: int,
)
    requires
        0 <= i < writes.len(),
        forall|j: int| i < j < writes.len() ==> (#[trigger] writes[j]).0 != writes[i].0,
    ensures
        disk_after(disk, writes).dom().contains(writes[i].0.path()),
        disk_after(disk, writes)[writes[i].0.path()] == writes[i].1,
    decreases writes.len(),
{
    let last = writes.len() - 1;
    if i < last {
        let before = writes.drop_last();
        assert forall|j: int| i < j < before.len() implies (#[trigger] before[j]).0
            != before[i].0 by {
            assert(before[j] == writes[j]);
        }
        law_written_tile_is_read_back(disk, before, i);
        let (a, b) = (writes[i].0, writes[last].0);
        if a.path() == b.path() {
            law_tile_paths_differ(
                a.hash,
                a.z,
                a.x,
                a.y,
                a.mode,
                a.webp,
                b.hash,
                b.z,
                b.x,
                b.y,
                b.mode,
                b.webp,
            );
            assert(a == b);
        }
    }
}

/// How often a tile was found in memory, on disk, and nowhere.
#[derive(Debug, Clone, Copy, PartialEq, Eq, Structural)]
pub struct CacheStats {
    pub l2_hits: u64,
    pub l3_hits: u64,
    pub misses: u64,
}

impl CacheStats {
    /// Nothing was counted yet.
    pub fn new() -> (stats: Self)
        ensures
            stats == (CacheStats { l2_hits: 0, l3_hits: 0, misses: 0 }),
    {
        CacheStats { l2_hits: 0, l3_hits: 0, misses: 0 }
    }
}

/// The number after `n`; a counter starts over behind its greatest value.
pub open spec fn counted_up(n: u64) -> u64 {
    if n == u64::MAX {
        0
    } else {
        (n + 1) as u64
    }
}

/// Counts a tile that was found in memory.
pub fn record_l2_hit(stats: &mut CacheStats)
    ensures
        *final(stats) == (CacheStats { l2_hits: counted_up(old(stats).l2_hits), ..*old(stats) }),
{
    stats.l2_hits = stats.l2_hits.wrapping_add(1);
}

/// Counts a tile that was found on disk.
pub fn record_l3_hit(stats: &mut CacheStats)
    ensures
        *final(stats) == (CacheStats { l3_hits: counted_up(old(stats).l3_hits), ..*old(stats) }),
{
    stats.l3_hits = stats.l3_hits.wrapping_add(1);
}

/// Counts a tile that was not found.
pub fn record_miss(stats: &mut CacheStats)
    ensures
        *final(stats) == (CacheStats { misses: counted_up(old(stats).misses), ..*old(stats) }),
{
    stats.misses = stats.misses.wrapping_add(1);
}

/// The hits in memory, the hits on disk and the misses.
pub fn cache_stats(stats: &CacheStats) -> (counts: (u64, u64, u64))
    ensures
        counts == (stats.l2_hits, stats.l3_hits, stats.misses),
{
    (stats.l2_hits, stats.l3_hits, stats.misses)
}

/// The bytes that the disk cache may hold, unless another limit is set.
pub const DISK_CACHE_MAX_BYTES: u64 = 0x8000_0000;

/// The size of the disk cache is checked at every so many writes.
pub const EVICTION_CHECK_INTERVAL: u64 = 10;

/// The megabytes that the memory cache may hold, unless another limit is set.
pub const L2_CACHE_DEFAULT_MB: u64 = 512;

/// The settings of the caches, and the number of writes to the disk cache.
pub struct CacheSettings {
    pub l2_max_mb: u64,
    pub disk_max_bytes: u64,
    pub disk_dir: Option<String>,
    pub disk_writes: u64,
}

impl CacheSettings {
    /// The settings of caches of which nothing was set.
    pub fn new() -> (settings: Self)
        ensures
            settings.l2_max_mb == L2_CACHE_DEFAULT_MB,
            settings.disk_max_bytes == DISK_CACHE_MAX_BYTES,
            settings.disk_dir is None,
            settings.disk_writes == 0,
    {
        CacheSettings {
            l2_max_mb: L2_CACHE_DEFAULT_MB,
            disk_max_bytes: DISK_CACHE_MAX_BYTES,
            disk_dir: None,
            disk_writes: 0,
        }
    }
}

/// Sets the size of the memory cache.
pub fn set_l2_cache_size_mb(settings: &mut CacheSettings, mb: u64)
    ensures
        *final(settings) == (CacheSettings { l2_max_mb: mb, ..*old(settings) }),
{
    settings.l2_max_mb = mb;
}

/// Sets the size of the disk cache.
pub fn set_disk_cache_max_bytes(settings: &mut CacheSettings, max_bytes: u64)
    ensures
        *final(settings) == (CacheSettings { disk_max_bytes: max_bytes, ..*old(settings) }),
{
    settings.disk_max_bytes = max_bytes;
}

/// Sets the directory of the disk cache, once: a directory that was set stays. Says
/// whether the directory was taken.
pub fn set_disk_cache_dir(settings: &mut CacheSettings, path: &str) -> (taken: bool)
    ensures
        taken == (old(settings).disk_dir is None),
        !taken ==> *final(settings) == *old(settings),
        taken ==> {
            &&& final(settings).disk_dir is Some
            &&& final(settings).disk_dir->Some_0@ == path@
            &&& final(settings).l2_max_mb == old(settings).l2_max_mb
            &&& final(settings).disk_max_bytes == old(settings).disk_max_bytes
            &&& final(settings).disk_writes == old(settings).disk_writes
        },
{
    if settings.disk_dir.is_some() {
        return false;
    }
    settings.disk_dir = Some(path.to_owned());
    true
}

/// The bytes of the disk cache, from what is known of the size of its directory. One that
/// cannot be read counts as empty.
pub fn disk_cache_size_bytes(size: Result<u64, String>) -> (bytes: u64)
    ensures
        bytes == (match size {
            Ok(n) => n,
            Err(_) => 0,
        }),
{
    match size {
        Ok(n) => n,
        Err(_) => 0,
    }
}

/// Counts a write to the disk cache, and says whether the size of the cache is to be
/// checked now: at the first write and every `EVICTION_CHECK_INTERVAL` writes after it.
pub fn disk_write_checks(settings: &mut CacheSettings) -> (due: bool)
    ensures
        due == (old(settings).disk_writes % EVICTION_CHECK_INTERVAL == 0),
        *final(settings) == (CacheSettings {
            disk_writes: counted_up(old(settings).disk_writes),
            ..*old(settings)
        }),
{
    let count: u64 = settings.disk_writes;
    settings.disk_writes = settings.disk_writes.wrapping_add(1);
    count % EVICTION_CHECK_INTERVAL == 0
}

/// The bytes to free so that a cache that is too large shrinks to a target size.
pub fn disk_excess(current_size: u64, max_bytes: u64, target: u64) -> (excess: Option<u64>)
    ensures
        current_size <= max_bytes ==> excess is None,
        current_size > max_bytes ==> excess == Some(
            (if current_size >= target {
                current_size - target
            } else {
                0
            }) as u64,
        ),
{
    if current_size <= max_bytes {
        None
    } else {
        Some(current_size.saturating_sub(target))
    }
}

/// A sum that stays at the greatest number where it would be beyond it.
pub open spec fn capped_sum(a: int, b: int) -> int {
    if a + b > u64::MAX {
        u64::MAX as int
    } else {
        a + b
    }
}

/// The files that are removed, of those in `order`, when `removed` bytes are freed: one
/// after the other until enough bytes are freed. A file of unknown size stays.
pub open spec fn evicted(
    order: Seq<usize>,
    sizes: Seq<Option<u64>>,
    removed: int,
    excess: int,
) -> Seq<usize>
    decreases order.len(),
{
    if order.len() == 0 || removed >= excess {
        Seq::empty()
    } else {
        match sizes[order[0] as int] {
            Some(size) => seq![order[0]] + evicted(
                order.drop_first(),
                sizes,
                capped_sum(removed, size as int),
                excess,
            ),
            None => evicted(order.drop_first(), sizes, removed, excess),
        }
    }
}

/// The bytes that removing files frees.
pub open spec fn freed(files: Seq<usize>, sizes: Seq<Option<u64>>, removed: int) -> int
    decreases files.len(),
{
    if files.len() == 0 {
        removed
    } else {
        freed(files.drop_first(), sizes, capped_sum(removed, sizes[files[0] as int]->Some_0 as int))
    }
}

/// The files of the disk cache to remove, the oldest first, and the bytes that this
/// frees.
pub fn files_to_evict(mtimes: &Vec<i64>, sizes: &Vec<Option<u64>>, excess: u64) -> (r: (
    Vec<usize>,
    u64,
))
    requires
        mtimes@.len() == sizes@.len(),
    ensures
        exists|order: Seq<usize>|
            #[trigger] crate::order::is_stable_order(mtimes@, order) && r.0@ == evicted(
                order,
                sizes@,
                0,
                excess as int,
            ),
        r.1 == freed(r.0@, sizes@, 0),
{
    let order: Vec<usize> = stable_order(mtimes);
    let mut files: Vec<usize> = Vec::new();
    let mut removed: u64 = 0;
    let mut i: usize = 0;
    proof {
        assert(order@.skip(0) =~= order@);
        assert(files@ + evicted(order@, sizes@, 0, excess as int) =~= evicted(
            order@,
            sizes@,
            0,
            excess as int,
        ));
    }
    while i < order.len() && removed < excess
        invariant
            crate::order::is_stable_order(mtimes@, order@),
            mtimes@.len() == sizes@.len(),
            i <= order@.len(),
            evicted(order@, sizes@, 0, excess as int) == files@ + evicted(
                order@.skip(i as int),
                sizes@,
                removed as int,
                excess as int,
            ),
            removed == freed(files@, sizes@, 0),
            forall|k: int|
                0 <= k < files@.len() ==> (#[trigger] files@[k]) < sizes@.len()
                    && sizes@[files@[k] as int] is Some,
        decreases order@.len() - i,
    {
        let f: usize = order[i];
        let ghost rest = order@.skip(i as int);
        assert(rest[0] == f);
        assert(rest.drop_first() =~= order@.skip(i + 1));
        match sizes[f] {
            Some(size) => {
                proof {
                    let tail = evicted(
                        rest.drop_first(),
                        sizes@,
                        capped_sum(removed as int, size as int),
                        excess as int,
                    );
                    assert(files@ + (seq![f] + tail) =~= files@.push(f) + tail);
                    lemma_freed_push(files@, sizes@, 0, f);
                }
                files.push(f);
                removed = removed.saturating_add(size);
            },
            None => {},
        }
        i += 1;
    }
    proof {
        assert(evicted(order@.skip(i as int), sizes@, removed as int, excess as int)
            =~= Seq::empty());
        assert(files@ =~= evicted(order@, sizes@, 0, excess as int));
    }
    (files, removed)
}

proof fn lemma_freed_push(files: Seq<usize>, sizes: Seq<Option<u64>>, removed: int, f: usize)
    ensures
        freed(files.push(f), sizes, removed) == capped_sum(
            freed(files, sizes, removed),
            sizes[f as int]->Some_0 as int,
        ),
    decreases files.len(),
{
    if files.len() == 0 {
        reveal_with_fuel(freed, 2);
        assert(files.push(f).drop_first() =~= files);
    } else {
        assert(files.push(f).drop_first() =~= files.drop_first().push(f));
        assert(files.push(f)[0] == files[0]);
        lemma_freed_push(
            files.drop_first(),
            sizes,
            capped_sum(removed, sizes[files[0] as int]->Some_0 as int),
            f,
        );
    }
}

/// Evicting frees enough bytes, or leaves no file of known size.
pub proof fn law_eviction_frees_enough(
    order: Seq<usize>,
    sizes: Seq<Option<u64>>,
    removed: int,
    excess: int,
)
    ensures
        ({
            let files = evicted(order, sizes, removed, excess);
            freed(files, sizes, removed) >= excess || forall|i: int|
                0 <= i < order.len() && sizes[#[trigger] order[i] as int] is Some
                    ==> files.contains(order[i])
        }),
    decreases order.len(),
{
    let files = evicted(order, sizes, removed, excess);
    if order.len() > 0 && removed < excess {
        let rest = order.drop_first();
        match sizes[order[0] as int] {
            Some(size) => {
                let r = capped_sum(removed, size as int);
                law_eviction_frees_enough(rest, sizes, r, excess);
                let tail = evicted(rest, sizes, r, excess);
                assert(files.drop_first() =~= tail);
                assert forall|x: usize| tail.contains(x) || x == order[0] implies files.contains(
                    x,
                ) by {
                    if x == order[0] {
                        assert(files[0] == x);
                    } else {
                        let k = choose|k: int| 0 <= k < tail.len() && tail[k] == x;
                        assert(files[k + 1] == x);
                    }
                }
                if freed(files, sizes, removed) < excess {
                    assert forall|i: int|
                        0 <= i < order.len() && sizes[#[trigger] order[i] as int]
                            is Some implies files.contains(order[i]) by {
                        if i > 0 {
                            assert(rest[i - 1] == order[i]);
                        }
                    }
                }
            },
            None => {
                law_eviction_frees_enough(rest, sizes, removed, excess);
                if freed(files, sizes, removed) < excess {
                    assert forall|i: int|
                        0 <= i < order.len() && sizes[#[trigger] order[i] as int]
                            is Some implies files.contains(order[i]) by {
                        if i > 0 {
                            assert(rest[i - 1] == order[i]);
                        }
                    }
                }
            },
        }
    }
}

/// Evicting stops as soon as enough bytes are freed: without its last file it would not
/// have freed them.
pub proof fn law_eviction_is_minimal(
    order: Seq<usize>,
    sizes: Seq<Option<u64>>,
    removed: int,
    excess: int,
)
    requires
        evicted(order, sizes, removed, excess).len() > 0,
    ensures
        freed(evicted(order, sizes, removed, excess).drop_last(), sizes, removed) < excess,
    decreases order.len(),
{
    let files = evicted(order, sizes, removed, excess);
    let rest = order.drop_first();
    match sizes[order[0] as int] {
        Some(size) => {
            let r = capped_sum(removed, size as int);
            let tail = evicted(rest, sizes, r, excess);
            if tail.len() > 0 {
                law_eviction_is_minimal(rest, sizes, r, excess);
                assert(files.drop_last().drop_first() =~= tail.drop_last());
                assert(files.drop_last()[0] == order[0]);
            } else {
                assert(files.drop_last() =~= Seq::empty());
            }
        },
        None => {
            law_eviction_is_minimal(rest, sizes, removed, excess);
        },
    }
}

// ─── What holds of keys, hashes and paths ───

/// The key of a tile has the hash of its layer, its place, the number of its mode and that of
/// its format; two keys are the same where all of these are.
pub proof fn law_keys_of_tiles(
    hash: &str,
    z: u32,
    x: u32,
    y: u32,
    mode: ResamplingMode,
    png: TileCacheKey,
    webp: TileCacheKey,
    other: &TileCacheKey,
    same: bool,
)
    requires
        call_ensures(TileCacheKey::new, (hash, z, x, y, mode), png),
        call_ensures(TileCacheKey::new_webp, (hash, z, x, y, mode), webp),
        call_ensures(TileCacheKey::same, (&png, other), same),
    ensures
        png.layer_hash@ == hash@ && png.z == z && png.x == x && png.y == y && png.format == 0,
        webp.layer_hash@ == hash@ && webp.z == z && webp.x == x && webp.y == y && webp.format == 1,
        png.resampling == (match mode {
            ResamplingMode::NearestNeighbor => 0u8,
            ResamplingMode::Bilinear => 1,
            ResamplingMode::Bicubic => 2,
            ResamplingMode::Lanczos3 => 3,
        }),
        webp.resampling == png.resampling,
        same <==> other.layer_hash@ == hash@ && other.z == z && other.x == x && other.y == y
            && other.resampling == png.resampling && other.format == 0,
{
    assert(png@.layer_hash == png.layer_hash@ && png@.z == png.z && png@.x == png.x && png@.y
        == png.y && png@.resampling == png.resampling && png@.format == png.format);
    assert(webp@.layer_hash == webp.layer_hash@ && webp@.z == webp.z && webp@.x == webp.x
        && webp@.y == webp.y && webp@.resampling == webp.resampling && webp@.format
        == webp.format);
    assert(other@.layer_hash == other.layer_hash@ && other@.z == other.z && other@.x == other.x
        && other@.y == other.y && other@.resampling == other.resampling && other@.format
        == other.format);
}

/// A cache holds a tile under a key where one of its tiles has the key, and gives the data of
/// that tile.
pub proof fn law_tiles_by_key(cache: MemCache, key: KeyValue, i: int)
    requires
        cache.wf(),
    ensures
        holds(cache.tiles(), key) <==> exists|k: int|
            0 <= k < cache.tiles().len() && (#[trigger] cache.tiles()[k]).key == key,
        0 <= i < cache.tiles().len() && cache.tiles()[i].key == key ==> lookup(cache, key) == Some(
            cache.tiles()[i].data,
        ) && place_of(cache.tiles(), key) == i,
        lookup(cache, key) is None <==> !holds(cache.tiles(), key),
{
    let tiles = cache.tiles();
    if 0 <= i < tiles.len() && tiles[i].key == key {
        assert(holds(tiles, key));
        assert forall|j: int| 0 <= j < i implies (#[trigger] tiles[j]).key != key by {
            assert(tiles[i].key == key);
        }
        lemma_place(tiles, key, i);
    }
}

/// Without the tile under a key, the tiles are those under the other keys, in order.
pub proof fn law_tiles_without_a_key(tiles: Seq<CachedTile>, key: KeyValue, i: int)
    requires
        keys_distinct(tiles),
        0 <= i < tiles.len(),
    ensures
        tiles[i].key == key ==> without(tiles, key) == tiles.remove(i),
        !holds(tiles, key) ==> without(tiles, key) == tiles,
{
    if tiles[i].key == key {
        assert(holds(tiles, key));
        assert forall|j: int| 0 <= j < i implies (#[trigger] tiles[j]).key != key by {
            assert(tiles[i].key == key);
        }
        lemma_place(tiles, key, i);
    }
}

/// The size of tiles is the sum of their sizes.
pub proof fn law_sizes_of_tiles(tiles: Seq<CachedTile>, tile: CachedTile)
    ensures
        total_size(Seq::empty()) == 0,
        total_size(tiles.push(tile)) == total_size(tiles) + tile.size,
{
    lemma_total_push(tiles, tile);
}

/// Of a file up to 4096 bytes the hash covers all of it; of a longer one the first and the last
/// 4096 bytes.
pub proof fn law_parts_that_are_hashed(file_size: u64, w: (u64, Option<u64>))
    requires
        call_ensures(content_windows, (file_size,), w),
    ensures
        file_size <= 4096 ==> w.0 == file_size && w.1 is None,
        file_size > 4096 ==> w.0 == 4096 && w.1 == Some((file_size - 4096) as u64),
{
}

/// The hash of a file is that of its size, then of the length and the bytes of its head, then
/// of those of its tail; an empty head and a missing tail are left out.
pub proof fn law_hash_of_a_file(w: &FileWindows, hash: String, digits: String, n: u64)
    requires
        call_ensures(file_content_hash, (w,), hash),
        call_ensures(hex16, (n,), digits),
        n == (<DefaultHasher as vstd::std_specs::hash::DefaultHasherAdditionalSpecFns>::spec_finish(
            seq![vstd::bytes::spec_u64_to_le_bytes(w.file_size)] + (if w.head@.len() > 0 {
                seq![vstd::bytes::spec_u64_to_le_bytes(w.head@.len() as u64), w.head@]
            } else {
                Seq::empty()
            }) + (match w.tail {
                Some(tail) => seq![vstd::bytes::spec_u64_to_le_bytes(tail@.len() as u64), tail@],
                None => Seq::empty(),
            }),
        )),
    ensures
        hash@ == digits@,
{
}

/// The hash of a path is that of its bytes and of a closing byte.
pub proof fn law_hash_of_a_path(path: &str, hash: String, digits: String, n: u64)
    requires
        call_ensures(path_hash, (path,), hash),
        call_ensures(hex16, (n,), digits),
        n == (<DefaultHasher as vstd::std_specs::hash::DefaultHasherAdditionalSpecFns>::spec_finish(
            seq![path.spec_bytes(), seq![0xFFu8]],
        )),
    ensures
        hash@ == digits@,
{
}

/// The hash of a path that is known is given as it is, and nothing changes. One that is not
/// known gets the hash of its file, which is then known, or that of the path where the file
/// could not be read.
pub proof fn law_hashes_that_are_given(
    before: Map<Seq<char>, String>,
    after: Map<Seq<char>, String>,
    path: &str,
    windows: Option<FileWindows>,
    hash: Seq<char>,
    of_file: String,
    of_path: String,
)
    requires
        hashed_call(
            before,
            after,
            HashCall { path: path@, bytes: path.spec_bytes(), windows },
            hash,
        ),
        windows is Some ==> call_ensures(file_content_hash, (&windows->Some_0,), of_file),
        call_ensures(path_hash, (path,), of_path),
    ensures
        before.dom().contains(path@) ==> hash == before[path@]@ && after == before,
        !before.dom().contains(path@) && windows is Some ==> hash == of_file@
            && after.dom().contains(path@) && after[path@]@ == of_file@ && after.dom()
            == before.dom().insert(path@),
        !before.dom().contains(path@) && windows is None ==> hash == of_path@ && after == before,
{
}

/// A tile is written below a directory for its layer and mode, one for its zoom level and one
/// for its column, to a file with the number of its row and the ending of its format.
pub proof fn law_paths_of_tiles(
    hash: &str,
    z: u32,
    x: u32,
    y: u32,
    mode: ResamplingMode,
    is_webp: bool,
    parts: Vec<String>,
)
    requires
        call_ensures(tile_cache_path, (hash, z, x, y, mode, is_webp), parts),
    ensures
        parts@.len() == 4,
        mode is NearestNeighbor ==> parts@[0]@ == hash@ + "_"@ + crate::numbers::decimal(0),
        mode is Bilinear ==> parts@[0]@ == hash@ + "_"@ + crate::numbers::decimal(1),
        mode is Bicubic ==> parts@[0]@ == hash@ + "_"@ + crate::numbers::decimal(2),
        mode is Lanczos3 ==> parts@[0]@ == hash@ + "_"@ + crate::numbers::decimal(3),
        parts@[1]@ == crate::numbers::decimal(z as nat),
        parts@[2]@ == crate::numbers::decimal(x as nat),
        is_webp ==> parts@[3]@ == crate::numbers::decimal(y as nat) + "."@ + "webp"@,
        !is_webp ==> parts@[3]@ == crate::numbers::decimal(y as nat) + "."@ + "png"@,
{
    let all = crate::text::texts(parts@);
    assert(all.len() == parts@.len());
    assert(all[0] == parts@[0]@ && all[1] == parts@[1]@ && all[2] == parts@[2]@ && all[3]
        == parts@[3]@);
}

/// A counter goes up by one, and starts over behind the greatest number.
pub proof fn law_counters_go_up(n: u64)
    ensures
        n < u64::MAX ==> counted_up(n) == n + 1,
        counted_up(u64::MAX) == 0,
{
}

/// Unless they are set, the memory cache has 512 megabytes and the disk cache two gigabytes,
/// of which the size is checked at every tenth write.
pub proof fn law_sizes_of_the_caches(settings: CacheSettings)
    requires
        call_ensures(CacheSettings::new, (), settings),
    ensures
        settings.l2_max_mb == 512,
        settings.disk_max_bytes == 2 * 1024 * 1024 * 1024,
        settings.disk_dir is None,
        settings.disk_writes == 0,
        EVICTION_CHECK_INTERVAL == 10,
{
}

proof fn lemma_evicted_places(
    order: Seq<usize>,
    sizes: Seq<Option<u64>>,
    removed: int,
    excess: int,
) -> (places: Seq<int>)
    ensures
        places.len() == evicted(order, sizes, removed, excess).len(),
        forall|k: int|
            0 <= k < places.len() ==> 0 <= #[trigger] places[k] < order.len() && evicted(
                order,
                sizes,
                removed,
                excess,
            )[k] == order[places[k]] && sizes[order[places[k]] as int] is Some,
        forall|a: int, b: int|
            0 <= a < b < places.len() ==> #[trigger] places[a] < #[trigger] places[b],
        forall|k: int, p: int|
            0 <= k < places.len() && 0 <= p < #[trigger] places[k]
                && sizes[#[trigger] order[p] as int] is Some ==> places.contains(p),
    decreases order.len(),
{
    if order.len() == 0 || removed >= excess {
        Seq::empty()
    } else {
        let rest = order.drop_first();
        match sizes[order[0] as int] {
            Some(size) => {
                let r = capped_sum(removed, size as int);
                let inner = lemma_evicted_places(rest, sizes, r, excess);
                let places = seq![0int] + inner.map_values(|p: int| p + 1);
                let files = evicted(order, sizes, removed, excess);
                assert forall|k: int| 0 <= k < places.len() implies 0 <= #[trigger] places[k]
                    < order.len() && files[k] == order[places[k]]
                    && sizes[order[places[k]] as int] is Some by {
                    if k > 0 {
                        assert(places[k] == inner[k - 1] + 1);
                        assert(rest[inner[k - 1]] == order[places[k]]);
                    }
                }
                assert forall|a: int, b: int| 0 <= a < b < places.len() implies #[trigger] places[a]
                    < #[trigger] places[b] by {
                    assert(places[b] == inner[b - 1] + 1);
                    if a > 0 {
                        assert(places[a] == inner[a - 1] + 1);
                    }
                }
                assert forall|k: int, p: int|
                    0 <= k < places.len() && 0 <= p < #[trigger] places[k]
                        && sizes[#[trigger] order[p] as int] is Some implies places.contains(
                    p,
                ) by {
                    if p == 0 {
                        assert(places[0] == 0);
                    } else {
                        assert(rest[p - 1] == order[p]);
                        assert(places[k] == inner[k - 1] + 1);
                        assert(inner.contains(p - 1));
                        let m = choose|m: int| 0 <= m < inner.len() && inner[m] == p - 1;
                        assert(places[m + 1] == p);
                    }
                }
                places
            },
            None => {
                let inner = lemma_evicted_places(rest, sizes, removed, excess);
                let places = inner.map_values(|p: int| p + 1);
                let files = evicted(order, sizes, removed, excess);
                assert forall|k: int| 0 <= k < places.len() implies 0 <= #[trigger] places[k]
                    < order.len() && files[k] == order[places[k]]
                    && sizes[order[places[k]] as int] is Some by {
                    assert(places[k] == inner[k] + 1);
                    assert(rest[inner[k]] == order[places[k]]);
                }
                assert forall|k: int, p: int|
                    0 <= k < places.len() && 0 <= p < #[trigger] places[k]
                        && sizes[#[trigger] order[p] as int] is Some implies places.contains(
                    p,
                ) by {
                    assert(rest[p - 1] == order[p]);
                    assert(places[k] == inner[k] + 1);
                    assert(inner.contains(p - 1));
                    let m = choose|m: int| 0 <= m < inner.len() && inner[m] == p - 1;
                    assert(places[m] == p);
                }
                places
            },
        }
    }
}

/// The files that are removed from the disk cache have a known size, none is removed twice, and
/// no file of known size that stays is older than one that is removed.
pub proof fn law_oldest_files_are_removed(
    mtimes: &Vec<i64>,
    sizes: &Vec<Option<u64>>,
    excess: u64,
    r: (Vec<usize>, u64),
    a: int,
    b: int,
    f: int,
)
    requires
        call_ensures(files_to_evict, (mtimes, sizes, excess), r),
        mtimes@.len() == sizes@.len(),
        sizes@.len() <= usize::MAX,
        0 <= a < r.0@.len(),
    ensures
        r.0@[a] < sizes@.len() && sizes@[r.0@[a] as int] is Some,
        0 <= b < a ==> r.0@[b] != r.0@[a] && mtimes@[r.0@[b] as int] <= mtimes@[r.0@[a] as int],
        0 <= f < sizes@.len() && sizes@[f] is Some && !r.0@.contains(f as usize)
            ==> mtimes@[r.0@[a] as int] <= mtimes@[f],
{
    let order = choose|order: Seq<usize>| #[trigger]
        crate::order::is_stable_order(mtimes@, order) && r.0@ == evicted(
            order,
            sizes@,
            0,
            excess as int,
        );
    crate::order::law_stable_order_lists_once(mtimes@, order);
    let places = lemma_evicted_places(order, sizes@, 0, excess as int);
    assert(0 <= places[a] < order.len());
    if 0 <= b < a {
        assert(places[b] < places[a]);
        assert(order[places[b]] != order[places[a]]);
        assert(crate::order::ordered_pair(
            mtimes@,
            order[places[b]] as int,
            order[places[a]] as int,
        ));
    }
    if 0 <= f < sizes@.len() && sizes@[f] is Some && !r.0@.contains(f as usize) {
        assert(order.contains(f as usize));
        let p = choose|p: int| 0 <= p < order.len() && order[p] == f as usize;
        if p < places[a] {
            assert(sizes@[order[p] as int] is Some);
            assert(places.contains(p));
            let m = choose|m: int| 0 <= m < places.len() && places[m] == p;
            assert(r.0@[m] == order[places[m]]);
        } else if p == places[a] {
            assert(r.0@[a] == f as usize);
        } else {
            assert(crate::order::ordered_pair(
                mtimes@,
                order[places[a]] as int,
                order[p] as int,
            ));
        }
    }
}

/// The bytes that are freed are the sizes of the files that are removed, together, or the
/// greatest number where they are beyond it. They are enough, or every file of known size is
/// removed; and without the last file they are not.
pub proof fn law_enough_bytes_are_freed(
    mtimes: &Vec<i64>,
    sizes: &Vec<Option<u64>>,
    excess: u64,
    r: (Vec<usize>, u64),
    f: int,
    files: Seq<usize>,
    file: usize,
)
    requires
        call_ensures(files_to_evict, (mtimes, sizes, excess), r),
        mtimes@.len() == sizes@.len(),
        sizes@.len() <= usize::MAX,
    ensures
        r.1 == freed(r.0@, sizes@, 0),
        freed(Seq::empty(), sizes@, 0) == 0,
        freed(files.push(file), sizes@, 0) == (if freed(files, sizes@, 0)
            + sizes@[file as int]->Some_0 > u64::MAX {
            u64::MAX as int
        } else {
            freed(files, sizes@, 0) + sizes@[file as int]->Some_0
        }),
        r.1 >= excess || (0 <= f < sizes@.len() && sizes@[f] is Some ==> r.0@.contains(f as usize)),
        r.0@.len() > 0 ==> freed(r.0@.drop_last(), sizes@, 0) < excess,
{
    let order = choose|order: Seq<usize>| #[trigger]
        crate::order::is_stable_order(mtimes@, order) && r.0@ == evicted(
            order,
            sizes@,
            0,
            excess as int,
        );
    lemma_freed_push(files, sizes@, 0, file);
    law_eviction_frees_enough(order, sizes@, 0, excess as int);
    if r.0@.len() > 0 {
        law_eviction_is_minimal(order, sizes@, 0, excess as int);
    }
    if r.1 < excess && 0 <= f < sizes@.len() && sizes@[f] is Some {
        assert(order.contains(f as usize));
        let p = choose|p: int| 0 <= p < order.len() && order[p] == f as usize;
        assert(sizes@[order[p] as int] is Some);
    }
}

/// A cache that was cleared has no tiles and counts nothing, and may hold as much as before. A
/// tile counts its bytes and those of its key.
pub proof fn law_cleared_cache_is_empty(before: MemCache, after: MemCache, len: nat)
    requires
        cleared(before, after),
    ensures
        after.tiles().len() == 0,
        after.counted() == 0,
        after.max() == before.max(),
        tile_size(len) == len + vstd::layout::size_of::<TileCacheKey>(),
{
}

/// A tile that is looked up moves behind all others, which keep their order; where there is no
/// tile under the key, nothing changes.
pub proof fn law_lookup_moves_a_tile(before: MemCache, after: MemCache, key: KeyValue, i: int)
    requires
        before.wf(),
        looked_up(before, after, key),
    ensures
        0 <= i < before.tiles().len() && before.tiles()[i].key == key ==> after.tiles()
            == before.tiles().remove(i).push(before.tiles()[i]),
        (forall|k: int| 0 <= k < before.tiles().len() ==> (#[trigger] before.tiles()[k]).key != key)
            ==> after.tiles() == before.tiles(),
        after.counted() == before.counted(),
        after.max() == before.max(),
{
    law_tiles_by_key(before, key, i);
    if 0 <= i < before.tiles().len() {
        law_tiles_without_a_key(before.tiles(), key, i);
    }
}

} // verus!
