//! Overviews of a raster: finding them in an overview file, and planning new ones.

use crate::numbers::decimal_text;
use crate::text::concat3;
use crate::tile::raster_load;
use crate::tile::raster_load::sample_index;
use crate::tile::types::{ChunkType, IfdInfo, InterleaveType};
use vstd::prelude::*;

verus! {

pub const TAG_IMAGE_WIDTH: u16 = 0x0100;

pub const TAG_IMAGE_LENGTH: u16 = 0x0101;

pub const TAG_ROWS_PER_STRIP: u16 = 0x0117;

pub const TAG_TILE_WIDTH: u16 = 0x0142;

pub const TAG_TILE_LENGTH: u16 = 0x0143;

/// The order of the bytes of a file, from its first two bytes.
pub open spec fn is_little_endian(bytes: Seq<u8>) -> Option<bool> {
    if bytes[0] == 0x49 && bytes[1] == 0x49 {
        Some(true)
    } else if bytes[0] == 0x4D && bytes[1] == 0x4D {
        Some(false)
    } else {
        None
    }
}

/// The number in the two bytes at `off`.
pub open spec fn u16_at(bytes: Seq<u8>, little: bool, off: int) -> u16 {
    if little {
        (bytes[off] + bytes[off + 1] * 0x100) as u16
    } else {
        (bytes[off] * 0x100 + bytes[off + 1]) as u16
    }
}

/// The number in the four bytes at `off`.
pub open spec fn u32_at(bytes: Seq<u8>, little: bool, off: int) -> u32 {
    if little {
        (bytes[off] + bytes[off + 1] * 0x100 + bytes[off + 2] * 0x1_0000 + bytes[off + 3]
            * 0x100_0000) as u32
    } else {
        (bytes[off] * 0x100_0000 + bytes[off + 1] * 0x1_0000 + bytes[off + 2] * 0x100 + bytes[off
            + 3]) as u32
    }
}

/// The entries of a directory that the file holds, of the `n` that start at `base`. An
/// entry is its tag and the number in its last four bytes.
pub open spec fn entries_at(bytes: Seq<u8>, little: bool, base: int, n: nat) -> Seq<(u16, u32)>
    decreases n,
{
    if n == 0 {
        Seq::empty()
    } else {
        let before = entries_at(bytes, little, base, (n - 1) as nat);
        let off = base + 12 * (n - 1);
        if off + 12 <= bytes.len() {
            before.push((u16_at(bytes, little, off), u32_at(bytes, little, off + 8)))
        } else {
            before
        }
    }
}

/// The value of the first entry with a tag.
pub open spec fn tag_value(entries: Seq<(u16, u32)>, tag: u16) -> Option<u32>
    decreases entries.len(),
{
    if entries.len() == 0 {
        None
    } else if entries[0].0 == tag {
        Some(entries[0].1)
    } else {
        tag_value(entries.drop_first(), tag)
    }
}

/// The value of the first entry with a tag, or a default.
pub open spec fn tag_or(entries: Seq<(u16, u32)>, tag: u16, default: u32) -> u32 {
    match tag_value(entries, tag) {
        Some(v) => v,
        None => default,
    }
}

/// An image that an overview file describes.
pub struct OvrImage {
    pub offset: u64,
    pub width: u32,
    pub height: u32,
    pub chunk_type: ChunkType,
    pub chunk_width: u32,
    pub chunk_length: u32,
    pub chunks_per_row: u32,
}

/// The entries of the directory at `off`.
pub open spec fn directory_entries(bytes: Seq<u8>, little: bool, off: int) -> Seq<(u16, u32)> {
    entries_at(bytes, little, off + 2, u16_at(bytes, little, off) as nat)
}

/// The image that the directory at `off` describes, unless it is empty. An image with a
/// tile width is tiled; any other one is cut into strips.
pub open spec fn image_at(bytes: Seq<u8>, little: bool, off: int) -> Option<OvrImage> {
    let e = directory_entries(bytes, little, off);
    let width = tag_or(e, TAG_IMAGE_WIDTH, 0);
    let height = tag_or(e, TAG_IMAGE_LENGTH, 0);
    if width == 0 || height == 0 {
        None
    } else {
        match tag_value(e, TAG_TILE_WIDTH) {
            Some(tw) => Some(
                OvrImage {
                    offset: off as u64,
                    width,
                    height,
                    chunk_type: ChunkType::Tile,
                    chunk_width: tw,
                    chunk_length: tag_or(e, TAG_TILE_LENGTH, tw),
                    chunks_per_row: ((width + tw - 1) / tw as int) as u32,
                },
            ),
            None => Some(
                OvrImage {
                    offset: off as u64,
                    width,
                    height,
                    chunk_type: ChunkType::Strip,
                    chunk_width: width,
                    chunk_length: tag_or(e, TAG_ROWS_PER_STRIP, height),
                    chunks_per_row: 1,
                },
            ),
        }
    }
}

/// The width of the tiles of the image at `off`, if it has any, allows to count the tiles
/// of a row.
pub open spec fn tiles_countable(bytes: Seq<u8>, little: bool, off: int) -> bool {
    let e = directory_entries(bytes, little, off);
    let width = tag_or(e, TAG_IMAGE_WIDTH, 0);
    let height = tag_or(e, TAG_IMAGE_LENGTH, 0);
    width != 0 && height != 0 && tag_value(e, TAG_TILE_WIDTH) is Some ==> {
        &&& tag_value(e, TAG_TILE_WIDTH)->Some_0 >= 1
        &&& width + tag_value(e, TAG_TILE_WIDTH)->Some_0 <= u32::MAX
    }
}

/// The offset of the directory after the one at `off`.
pub open spec fn next_directory(bytes: Seq<u8>, little: bool, off: int) -> Option<int> {
    let at = off + 2 + 12 * u16_at(bytes, little, off);
    if at + 4 <= bytes.len() && u32_at(bytes, little, at) != 0 {
        Some(u32_at(bytes, little, at) as int)
    } else {
        None
    }
}

/// The images of the directories from the one at `off` on, at most `fuel` directories.
pub open spec fn images_from(bytes: Seq<u8>, little: bool, off: int, fuel: nat) -> Seq<OvrImage>
    decreases fuel,
{
    if off + 2 > bytes.len() || fuel == 0 {
        Seq::empty()
    } else {
        let rest = match next_directory(bytes, little, off) {
            Some(next) => images_from(bytes, little, next, (fuel - 1) as nat),
            None => Seq::empty(),
        };
        match image_at(bytes, little, off) {
            Some(image) => seq![image] + rest,
            None => rest,
        }
    }
}

/// The chain of directories from the one at `off` ends after at most `fuel` of them, and
/// in each the tiles can be counted.
pub open spec fn chain_ends(bytes: Seq<u8>, little: bool, off: int, fuel: nat) -> bool
    decreases fuel,
{
    if off + 2 > bytes.len() {
        true
    } else if fuel == 0 {
        false
    } else {
        &&& tiles_countable(bytes, little, off)
        &&& match next_directory(bytes, little, off) {
            Some(next) => chain_ends(bytes, little, next, (fuel - 1) as nat),
            None => true,
        }
    }
}

/// The images of a whole overview file.
pub open spec fn ovr_images(bytes: Seq<u8>) -> Seq<OvrImage> {
    let little = is_little_endian(bytes)->Some_0;
    images_from(bytes, little, u32_at(bytes, little, 4) as int, bytes.len())
}

/// An overview file whose directories can be walked to the end. A file of `n` bytes has
/// fewer than `n` places for a directory, so a longer chain goes round in circles.
pub open spec fn ovr_walkable(bytes: Seq<u8>) -> bool {
    bytes.len() >= 8 && is_little_endian(bytes) is Some ==> {
        let little = is_little_endian(bytes)->Some_0;
        chain_ends(bytes, little, u32_at(bytes, little, 4) as int, bytes.len())
    }
}

fn read_u16(bytes: &[u8], little: bool, off: usize) -> (v: u16)
    requires
        off + 2 <= bytes@.len(),
    ensures
        v == u16_at(bytes@, little, off as int),
{
    let a: u16 = bytes[off] as u16;
    let b: u16 = bytes[off + 1] as u16;
    if little {
        a + b * 0x100
    } else {
        a * 0x100 + b
    }
}

fn read_u32(bytes: &[u8], little: bool, off: usize) -> (v: u32)
    requires
        off + 4 <= bytes@.len(),
    ensures
        v == u32_at(bytes@, little, off as int),
{
    let a: u32 = bytes[off] as u32;
    let b: u32 = bytes[off + 1] as u32;
    let c: u32 = bytes[off + 2] as u32;
    let d: u32 = bytes[off + 3] as u32;
    if little {
        a + b * 0x100 + c * 0x1_0000 + d * 0x100_0000
    } else {
        a * 0x100_0000 + b * 0x1_0000 + c * 0x100 + d
    }
}

/// The value of the first entry with a tag.
pub fn read_u16_ifd_entry(entries: &[(u16, u32)], tag_id: u16) -> (value: Option<u32>)
    ensures
        value == tag_value(entries@, tag_id),
{
    let mut i: usize = 0;
    assert(entries@.subrange(0, entries@.len() as int) =~= entries@);
    while i < entries.len()
        invariant
            i <= entries@.len(),
            tag_value(entries@, tag_id) == tag_value(
                entries@.subrange(i as int, entries@.len() as int),
                tag_id,
            ),
        decreases entries@.len() - i,
    {
        proof {
            assert(entries@.subrange(i as int, entries@.len() as int).drop_first()
                =~= entries@.subrange(i + 1, entries@.len() as int));
        }
        if entries[i].0 == tag_id {
            return Some(entries[i].1);
        }
        i += 1;
    }
    None
}

fn read_entries(bytes: &[u8], little: bool, off: usize) -> (entries: Vec<(u16, u32)>)
    requires
        off + 2 <= bytes@.len(),
    ensures
        entries@ == directory_entries(bytes@, little, off as int),
{
    let n: u16 = read_u16(bytes, little, off);
    let mut entries: Vec<(u16, u32)> = Vec::new();
    let mut k: u16 = 0;
    while k < n
        invariant
            k <= n,
            off + 2 <= bytes@.len(),
            entries@ == entries_at(bytes@, little, off + 2, k as nat),
        decreases n - k,
    {
        let at: u128 = off as u128 + 2 + 12 * k as u128;
        if at + 12 <= bytes.len() as u128 {
            let p: usize = at as usize;
            entries.push((read_u16(bytes, little, p), read_u32(bytes, little, p + 8)));
        }
        k += 1;
    }
    entries
}

fn read_next(bytes: &[u8], little: bool, off: usize) -> (next: Option<u32>)
    requires
        off + 2 <= bytes@.len(),
    ensures
        next is Some <==> next_directory(bytes@, little, off as int) is Some,
        next is Some ==> next_directory(bytes@, little, off as int) == Some(next->Some_0 as int),
{
    let n: u16 = read_u16(bytes, little, off);
    let at: u128 = off as u128 + 2 + 12 * n as u128;
    if at + 4 <= bytes.len() as u128 {
        let v: u32 = read_u32(bytes, little, at as usize);
        if v != 0 {
            return Some(v);
        }
    }
    None
}

/// The directories of an overview file can be walked to the end.
pub fn ovr_is_walkable(bytes: &[u8]) -> (r: bool)
    ensures
        r == ovr_walkable(bytes@),
{
    if bytes.len() < 8 {
        return true;
    }
    let little: bool = if bytes[0] == 0x49 && bytes[1] == 0x49 {
        true
    } else if bytes[0] == 0x4D && bytes[1] == 0x4D {
        false
    } else {
        return true;
    };
    let mut off: u32 = read_u32(bytes, little, 4);
    let mut fuel: usize = bytes.len();
    while off as u128 + 2 <= bytes.len() as u128
        invariant
            ovr_walkable(bytes@) == chain_ends(bytes@, little, off as int, fuel as nat),
        decreases fuel,
    {
        if fuel == 0 {
            return false;
        }
        let entries: Vec<(u16, u32)> = read_entries(bytes, little, off as usize);
        let width: u32 = or_default(&entries, TAG_IMAGE_WIDTH, 0);
        let height: u32 = or_default(&entries, TAG_IMAGE_LENGTH, 0);
        if width != 0 && height != 0 {
            if let Some(tw) = read_u16_ifd_entry(&entries, TAG_TILE_WIDTH) {
                if tw == 0 || width as u64 + tw as u64 > u32::MAX as u64 {
                    return false;
                }
            }
        }
        match read_next(bytes, little, off as usize) {
            Some(next) => {
                off = next;
                fuel -= 1;
            },
            None => {
                return true;
            },
        }
    }
    true
}

fn or_default(entries: &[(u16, u32)], tag: u16, default: u32) -> (v: u32)
    ensures
        v == tag_or(entries@, tag, default),
{
    match read_u16_ifd_entry(entries, tag) {
        Some(v) => v,
        None => default,
    }
}

/// The entry of the library for an image of an overview file.
pub open spec fn describes(ifd: IfdInfo, image: OvrImage, index: int, path: Seq<char>) -> bool {
    &&& ifd.index == index
    &&& ifd.width == image.width
    &&& ifd.height == image.height
    &&& ifd.chunk_type == image.chunk_type
    &&& ifd.chunk_width == image.chunk_width
    &&& ifd.chunk_length == image.chunk_length
    &&& ifd.chunks_per_row == image.chunks_per_row
    &&& ifd.external
    &&& ifd.ifd_ptr == Some(image.offset)
    &&& ifd.interleave == InterleaveType::Chunky
    &&& ifd.file_path@ == path
}

fn read_image(bytes: &[u8], little: bool, off: u32, path: &str, index: usize) -> (ifd: Option<
    IfdInfo,
>)
    requires
        off + 2 <= bytes@.len(),
        tiles_countable(bytes@, little, off as int),
    ensures
        ifd is Some <==> image_at(bytes@, little, off as int) is Some,
        ifd is Some ==> describes(
            ifd->Some_0,
            image_at(bytes@, little, off as int)->Some_0,
            index as int,
            path@,
        ),
{
    let entries: Vec<(u16, u32)> = read_entries(bytes, little, off as usize);
    let width: u32 = or_default(&entries, TAG_IMAGE_WIDTH, 0);
    let height: u32 = or_default(&entries, TAG_IMAGE_LENGTH, 0);
    if width == 0 || height == 0 {
        return None;
    }
    let (chunk_type, chunk_width, chunk_length, chunks_per_row): (ChunkType, u32, u32, u32) =
        match read_u16_ifd_entry(&entries, TAG_TILE_WIDTH) {
        Some(tw) => {
            let tl: u32 = or_default(&entries, TAG_TILE_LENGTH, tw);
            proof {
                vstd::arithmetic::div_mod::lemma_div_is_ordered_by_denominator(
                    width + tw - 1,
                    1,
                    tw as int,
                );
                vstd::arithmetic::div_mod::lemma_div_pos_is_pos(width + tw - 1, tw as int);
            }
            (ChunkType::Tile, tw, tl, (width + tw - 1) / tw)
        },
        None => (ChunkType::Strip, width, or_default(&entries, TAG_ROWS_PER_STRIP, height), 1),
    };
    Some(
        IfdInfo {
            index,
            width,
            height,
            chunk_type,
            chunk_width,
            chunk_length,
            chunks_per_row,
            external: true,
            ifd_ptr: Some(off as u64),
            interleave: InterleaveType::Chunky,
            file_path: path.to_owned(),
        },
    )
}

/// The images of an overview file, from the bytes of the file. They are numbered from
/// `base_index` on, in the order of the file's directories.
pub fn parse_ovr_ifd_offsets(bytes: &[u8], ovr_path: &str, base_index: usize) -> (ifds: Result<
    Vec<IfdInfo>,
    String,
>)
    requires
        ovr_walkable(bytes@),
        base_index + bytes@.len() <= usize::MAX,
    ensures
        bytes@.len() < 8 ==> ifds is Err && ifds->Err_0@
            == "Failed to read TIFF header from .ovr: failed to fill whole buffer"@,
        bytes@.len() >= 8 && is_little_endian(bytes@) is None ==> ifds is Err && ifds->Err_0@
            == "Invalid TIFF byte order in .ovr"@,
        bytes@.len() >= 8 && is_little_endian(bytes@) is Some ==> {
            &&& ifds is Ok
            &&& ifds->Ok_0@.len() == ovr_images(bytes@).len()
            &&& forall|i: int|
                0 <= i < ifds->Ok_0@.len() ==> describes(
                    #[trigger] ifds->Ok_0@[i],
                    ovr_images(bytes@)[i],
                    base_index + i,
                    ovr_path@,
                )
        },
{
    if bytes.len() < 8 {
        return Err("Failed to read TIFF header from .ovr: failed to fill whole buffer".to_owned());
    }
    let little: bool = if bytes[0] == 0x49 && bytes[1] == 0x49 {
        true
    } else if bytes[0] == 0x4D && bytes[1] == 0x4D {
        false
    } else {
        return Err("Invalid TIFF byte order in .ovr".to_owned());
    };
    let mut ifds: Vec<IfdInfo> = Vec::new();
    let mut off: u32 = read_u32(bytes, little, 4);
    let ghost mut fuel: nat = bytes@.len();
    let ghost mut seen: Seq<OvrImage> = Seq::empty();
    assert(ovr_images(bytes@) =~= seen + images_from(bytes@, little, off as int, fuel));
    while off as u128 + 2 <= bytes.len() as u128
        invariant
            bytes@.len() >= 8,
            is_little_endian(bytes@) == Some(little),
            chain_ends(bytes@, little, off as int, fuel),
            ovr_images(bytes@) == seen + images_from(bytes@, little, off as int, fuel),
            base_index + bytes@.len() <= usize::MAX,
            ifds@.len() + fuel <= bytes@.len(),
            ifds@.len() == seen.len(),
            forall|i: int|
                0 <= i < ifds@.len() ==> describes(
                    #[trigger] ifds@[i],
                    seen[i],
                    base_index + i,
                    ovr_path@,
                ),
        decreases fuel,
    {
        let ghost here = images_from(bytes@, little, off as int, fuel);
        let next: Option<u32> = read_next(bytes, little, off as usize);
        let ghost rest = match next_directory(bytes@, little, off as int) {
            Some(n) => images_from(bytes@, little, n, (fuel - 1) as nat),
            None => Seq::empty(),
        };
        match read_image(bytes, little, off, ovr_path, base_index + ifds.len()) {
            Some(ifd) => {
                proof {
                    let image = image_at(bytes@, little, off as int)->Some_0;
                    assert(seen + here =~= seen.push(image) + rest);
                    seen = seen.push(image);
                }
                ifds.push(ifd);
            },
            None => {},
        }
        proof {
            fuel = (fuel - 1) as nat;
        }
        match next {
            Some(n) => {
                off = n;
            },
            None => {
                assert(seen + rest =~= seen);
                return Ok(ifds);
            },
        }
    }
    proof {
        assert(seen + images_from(bytes@, little, off as int, fuel) =~= seen);
    }
    Ok(ifds)
}

/// The offset of the directory `k` places after the one at `off`.
spec fn nth_directory(bytes: Seq<u8>, little: bool, off: int, k: nat) -> Option<int>
    decreases k,
{
    if k == 0 {
        Some(off)
    } else {
        match nth_directory(bytes, little, off, (k - 1) as nat) {
            Some(o) => if o + 2 <= bytes.len() {
                next_directory(bytes, little, o)
            } else {
                None
            },
            None => None,
        }
    }
}

/// There is a directory `k` places after the one at `off`.
spec fn reaches(bytes: Seq<u8>, little: bool, off: int, k: nat) -> bool {
    &&& nth_directory(bytes, little, off, k) is Some
    &&& nth_directory(bytes, little, off, k)->Some_0 + 2 <= bytes.len()
}

proof fn lemma_nth_shift(bytes: Seq<u8>, little: bool, off: int, i: nat, k: nat)
    requires
        nth_directory(bytes, little, off, i) is Some,
    ensures
        nth_directory(bytes, little, off, i + k) == nth_directory(
            bytes,
            little,
            nth_directory(bytes, little, off, i)->Some_0,
            k,
        ),
    decreases k,
{
    if k > 0 {
        lemma_nth_shift(bytes, little, off, i, (k - 1) as nat);
        assert((i + k - 1) as nat == i + (k - 1) as nat);
    }
}

proof fn lemma_chain_more_fuel(bytes: Seq<u8>, little: bool, off: int, f: nat, g: nat)
    requires
        chain_ends(bytes, little, off, f),
        f <= g,
    ensures
        chain_ends(bytes, little, off, g),
    decreases f,
{
    if off + 2 <= bytes.len() {
        match next_directory(bytes, little, off) {
            Some(next) => lemma_chain_more_fuel(
                bytes,
                little,
                next,
                (f - 1) as nat,
                (g - 1) as nat,
            ),
            None => {},
        }
    }
}

proof fn lemma_chain_tail(bytes: Seq<u8>, little: bool, off: int, f: nat, k: nat)
    requires
        chain_ends(bytes, little, off, f),
        forall|j: nat| j <= k ==> reaches(bytes, little, off, j),
    ensures
        k < f,
        chain_ends(
            bytes,
            little,
            nth_directory(bytes, little, off, k)->Some_0,
            (f - k) as nat,
        ),
    decreases k,
{
    assert(reaches(bytes, little, off, k));
    if k > 0 {
        lemma_chain_tail(bytes, little, off, f, (k - 1) as nat);
        let prev = nth_directory(bytes, little, off, (k - 1) as nat)->Some_0;
        let here = nth_directory(bytes, little, off, k)->Some_0;
        assert(reaches(bytes, little, off, (k - 1) as nat));
        assert(next_directory(bytes, little, prev) == Some(here));
        assert(chain_ends(bytes, little, prev, (f - (k - 1)) as nat));
        assert(chain_ends(bytes, little, here, ((f - (k - 1)) as nat - 1) as nat));
        assert(((f - (k - 1)) as nat - 1) as nat == (f - k) as nat);
        assert(chain_ends(bytes, little, here, (f - k) as nat));
    }
}

proof fn lemma_chain_longer(bytes: Seq<u8>, little: bool, off: int, f: nat, g: nat, k: nat)
    requires
        chain_ends(bytes, little, off, f),
        !chain_ends(bytes, little, off, g),
        k <= g,
    ensures
        reaches(bytes, little, off, k),
    decreases g,
{
    if k > 0 {
        let next = next_directory(bytes, little, off)->Some_0;
        assert(nth_directory(bytes, little, off, 1) == Some(next)) by {
            assert(nth_directory(bytes, little, off, 0) == Some(off));
        }
        lemma_chain_longer(bytes, little, next, (f - 1) as nat, (g - 1) as nat, (k - 1) as nat);
        lemma_nth_shift(bytes, little, off, 1, (k - 1) as nat);
        assert(1 + (k - 1) as nat == k);
    }
}

proof fn lemma_circle_never_ends(bytes: Seq<u8>, little: bool, off: int, period: nat, f: nat)
    requires
        period >= 1,
        forall|j: nat| j <= period ==> reaches(bytes, little, off, j),
        nth_directory(bytes, little, off, period) == Some(off),
    ensures
        !chain_ends(bytes, little, off, f),
    decreases f,
{
    if chain_ends(bytes, little, off, f) {
        lemma_chain_tail(bytes, little, off, f, period);
        lemma_circle_never_ends(bytes, little, off, period, (f - period) as nat);
    }
}

/// A chain of directories that ends at all ends within as many directories as the file
/// has bytes.
pub proof fn law_chain_bound(bytes: Seq<u8>, little: bool, off: int, f: nat)
    requires
        chain_ends(bytes, little, off, f),
        off >= 0,
    ensures
        chain_ends(bytes, little, off, bytes.len()),
{
    let n = bytes.len();
    if f <= n {
        lemma_chain_more_fuel(bytes, little, off, f, n);
    } else if !chain_ends(bytes, little, off, n) {
        assert forall|k: nat| k <= n implies reaches(bytes, little, off, k) by {
            lemma_chain_longer(bytes, little, off, f, n, k);
        }
        let places = Seq::new(
            n + 1,
            |k: int| nth_directory(bytes, little, off, k as nat)->Some_0,
        );
        let all = vstd::set_lib::set_int_range(0, n as int);
        vstd::set_lib::lemma_int_range(0, n as int);
        assert forall|x: int| places.to_set().contains(x) implies all.contains(x) by {
            let k = choose|k: int| 0 <= k < places.len() && places[k] == x;
            assert(reaches(bytes, little, off, k as nat));
            assert(x >= 0) by {
                if k > 0 {
                    assert(reaches(bytes, little, off, (k - 1) as nat));
                }
            }
        }
        if places.no_duplicates() {
            places.unique_seq_to_set();
            vstd::set_lib::lemma_len_subset(places.to_set(), all);
            assert(false);
        }
        let (i, j) = choose|i: int, j: int|
            0 <= i < places.len() && 0 <= j < places.len() && i != j && places[i] == places[j];
        let (a, b) = if i < j {
            (i, j)
        } else {
            (j, i)
        };
        assert(reaches(bytes, little, off, a as nat));
        let o = places[a];
        let period = (b - a) as nat;
        assert forall|k: nat| k <= period implies reaches(bytes, little, o, k) by {
            lemma_nth_shift(bytes, little, off, a as nat, k);
            assert(reaches(bytes, little, off, a as nat + k));
        }
        lemma_nth_shift(bytes, little, off, a as nat, period);
        assert(nth_directory(bytes, little, off, b as nat) is Some) by {
            assert(reaches(bytes, little, off, b as nat));
        }
        assert(a as nat + period == b as nat);
        lemma_chain_tail(bytes, little, off, f, a as nat);
        lemma_circle_never_ends(bytes, little, o, period, (f - a) as nat);
    }
}

/// Overviews are not made of images this small.
pub const MIN_OVERVIEW_SIZE: u32 = 256;

/// No more overviews than these are made of an image.
pub const MAX_OVERVIEW_LEVELS: usize = 8;

/// Half of a length, but at least 1.
pub open spec fn half(n: int) -> int {
    if n / 2 >= 1 {
        n / 2
    } else {
        1
    }
}

/// The sizes of the overviews of an image of which `made` overviews exist: each is half
/// of the one before, until both sides are small or there are enough.
pub open spec fn levels_from(w: int, h: int, made: nat) -> Seq<(u32, u32)>
    decreases MAX_OVERVIEW_LEVELS - made,
{
    if (half(w) == w && half(h) == h) || (w <= MIN_OVERVIEW_SIZE && h <= MIN_OVERVIEW_SIZE)
        || made >= MAX_OVERVIEW_LEVELS {
        Seq::empty()
    } else {
        seq![(half(w) as u32, half(h) as u32)] + levels_from(half(w), half(h), made + 1)
    }
}

/// The sizes of the overviews that are made of an image.
pub fn overview_levels(width: u32, height: u32) -> (levels: Vec<(u32, u32)>)
    ensures
        levels@ == levels_from(width as int, height as int, 0),
{
    let mut levels: Vec<(u32, u32)> = Vec::new();
    let mut w: u32 = width;
    let mut h: u32 = height;
    let mut made: usize = 0;
    assert(levels@ + levels_from(w as int, h as int, 0) =~= levels_from(w as int, h as int, 0));
    loop
        invariant
            made <= MAX_OVERVIEW_LEVELS,
            levels@ + levels_from(w as int, h as int, made as nat) == levels_from(
                width as int,
                height as int,
                0,
            ),
        ensures
            levels@ == levels_from(width as int, height as int, 0),
        decreases MAX_OVERVIEW_LEVELS - made,
    {
        let new_w: u32 = if w / 2 >= 1 {
            w / 2
        } else {
            1
        };
        let new_h: u32 = if h / 2 >= 1 {
            h / 2
        } else {
            1
        };
        if (new_w == w && new_h == h) || (w <= MIN_OVERVIEW_SIZE && h <= MIN_OVERVIEW_SIZE) || made
            >= MAX_OVERVIEW_LEVELS {
            assert(levels@ + Seq::<(u32, u32)>::empty() =~= levels@);
            break;
        }
        proof {
            assert(levels@ + levels_from(w as int, h as int, made as nat) =~= levels@.push(
                (new_w, new_h),
            ) + levels_from(new_w as int, new_h as int, made as nat + 1));
        }
        levels.push((new_w, new_h));
        w = new_w;
        h = new_h;
        made += 1;
    }
    levels
}

proof fn lemma_levels(w: int, h: int, made: nat, i: int)
    requires
        0 <= w <= u32::MAX,
        0 <= h <= u32::MAX,
        made <= MAX_OVERVIEW_LEVELS,
        0 <= i < levels_from(w, h, made).len(),
    ensures
        levels_from(w, h, made).len() + made <= MAX_OVERVIEW_LEVELS,
        i == 0 ==> levels_from(w, h, made)[0] == (half(w) as u32, half(h) as u32),
        i > 0 ==> levels_from(w, h, made)[i] == (
            half(levels_from(w, h, made)[i - 1].0 as int) as u32,
            half(levels_from(w, h, made)[i - 1].1 as int) as u32,
        ),
    decreases MAX_OVERVIEW_LEVELS - made,
{
    let rest = levels_from(half(w), half(h), made + 1);
    if rest.len() > 0 {
        lemma_levels(half(w), half(h), made + 1, 0);
    }
    if i > 0 {
        lemma_levels(half(w), half(h), made + 1, i - 1);
        assert(levels_from(w, h, made)[i] == rest[i - 1]);
        if i > 1 {
            assert(levels_from(w, h, made)[i - 1] == rest[i - 2]);
        }
    }
}

/// An image has a bounded number of overviews, and each halves the one before.
pub proof fn law_levels_halve(width: u32, height: u32)
    ensures
        levels_from(width as int, height as int, 0).len() <= MAX_OVERVIEW_LEVELS,
        forall|i: int|
            0 <= i < levels_from(width as int, height as int, 0).len() ==> {
                let (w, h) = if i == 0 {
                    (width, height)
                } else {
                    levels_from(width as int, height as int, 0)[i - 1]
                };
                #[trigger] levels_from(width as int, height as int, 0)[i] == (
                    half(w as int) as u32,
                    half(h as int) as u32,
                )
            },
{
    let levels = levels_from(width as int, height as int, 0);
    if levels.len() > 0 {
        lemma_levels(width as int, height as int, 0, 0);
    }
    assert forall|i: int| 0 <= i < levels.len() implies {
        let (w, h) = if i == 0 {
            (width, height)
        } else {
            levels[i - 1]
        };
        #[trigger] levels[i] == (half(w as int) as u32, half(h as int) as u32)
    } by {
        lemma_levels(width as int, height as int, 0, i);
    }
}

/// The number of bands of an image, from the number of its samples.
pub fn ovr_band_count(samples: usize, width: u32, height: u32) -> (bands: Result<usize, String>)
    ensures
        width * height == 0 ==> bands is Err && bands->Err_0@ == "Image has zero pixels"@,
        width * height > 0 ==> bands is Ok && bands->Ok_0 == (if samples >= width * height {
            samples as int / (width * height)
        } else {
            1
        }),
{
    proof {
        assert(0 <= width * height <= u32::MAX * u32::MAX) by (nonlinear_arith)
            requires
                0 <= width <= u32::MAX,
                0 <= height <= u32::MAX,
        ;
    }
    let total: u64 = width as u64 * height as u64;
    if total == 0 {
        return Err("Image has zero pixels".to_owned());
    }
    if samples as u64 >= total {
        proof {
            vstd::arithmetic::div_mod::lemma_div_is_ordered_by_denominator(
                samples as int,
                1,
                total as int,
            );
        }
        Ok((samples as u64 / total) as usize)
    } else {
        Ok(1)
    }
}

/// Overviews can be made of images with this many bands.
pub fn ovr_bands_supported(bands: usize) -> (r: Result<(), String>)
    ensures
        bands <= 4 <==> r is Ok,
        r is Err ==> r->Err_0@ == "Cannot generate .ovr for "@ + crate::numbers::decimal(
            bands as nat,
        ) + " bands (max supported: 4)"@,
{
    if bands > 4 {
        let number: String = decimal_text(bands as u64);
        return Err(
            concat3("Cannot generate .ovr for ", number.as_str(), " bands (max supported: 4)"),
        );
    }
    Ok(())
}

/// The type of the samples of an image.
#[derive(Debug, Clone, Copy, PartialEq, Eq, Structural)]
pub enum SampleType {
    U8,
    U16,
    F32,
    F64,
    Other,
}

/// How the bands of an overview are written.
#[derive(Debug, Clone, Copy, PartialEq, Eq, Structural)]
pub enum BandLayout {
    Gray,
    /// A gray band and one more band of no stated meaning.
    GrayExtra,
    Rgb,
    Rgba,
}

/// Why no overview can be written of an image with such samples and bands.
pub open spec fn layout_failure(sample: SampleType, bands: nat) -> Option<Seq<char>> {
    if sample is Other {
        Some("Unsupported data type for .ovr generation"@)
    } else if sample is F64 && bands == 2 {
        Some("Unsupported band count "@ + crate::numbers::decimal(bands) + " for f64 .ovr"@)
    } else {
        None
    }
}

/// How an overview with a number of bands is written.
pub open spec fn layout_for(bands: nat) -> BandLayout {
    if bands == 1 {
        BandLayout::Gray
    } else if bands == 2 {
        BandLayout::GrayExtra
    } else if bands == 3 {
        BandLayout::Rgb
    } else {
        BandLayout::Rgba
    }
}

/// How the overviews of an image are written.
pub fn level_layout(sample: SampleType, bands: usize) -> (layout: Result<BandLayout, String>)
    requires
        1 <= bands <= 4,
    ensures
        match layout_failure(sample, bands as nat) {
            Some(text) => layout is Err && layout->Err_0@ == text,
            None => layout == Ok::<BandLayout, String>(layout_for(bands as nat)),
        },
{
    match sample {
        SampleType::Other => {
            return Err("Unsupported data type for .ovr generation".to_owned());
        },
        SampleType::F64 => {
            if bands == 2 {
                let number: String = decimal_text(bands as u64);
                return Err(concat3("Unsupported band count ", number.as_str(), " for f64 .ovr"));
            }
        },
        _ => {},
    }
    if bands == 1 {
        Ok(BandLayout::Gray)
    } else if bands == 2 {
        Ok(BandLayout::GrayExtra)
    } else if bands == 3 {
        Ok(BandLayout::Rgb)
    } else {
        Ok(BandLayout::Rgba)
    }
}

/// An overview that is to be made: the size that its source is taken to have, its own
/// size, and how it is written.
#[derive(Debug, Clone, Copy, PartialEq, Eq, Structural)]
pub struct OvrLevel {
    pub src_w: u32,
    pub src_h: u32,
    pub width: u32,
    pub height: u32,
    pub layout: BandLayout,
}

/// Overview `i` of an image.
pub open spec fn level_at(width: u32, height: u32, bands: nat, i: int) -> OvrLevel {
    let sizes = levels_from(width as int, height as int, 0);
    let source = if i == 0 {
        (width, height)
    } else {
        sizes[i - 1]
    };
    OvrLevel {
        src_w: source.0,
        src_h: source.1,
        width: sizes[i].0,
        height: sizes[i].1,
        layout: layout_for(bands),
    }
}

/// Plans the overviews of an image. Too many bands are refused; samples that cannot be
/// written are refused only where there is an overview to write.
pub fn generate_ovr(width: u32, height: u32, bands: usize, sample: SampleType) -> (plan: Result<
    Vec<OvrLevel>,
    String,
>)
    requires
        bands >= 1,
    ensures
        ({
            let sizes = levels_from(width as int, height as int, 0);
            let failure = layout_failure(sample, bands as nat);
            if bands > 4 {
                plan is Err && plan->Err_0@ == "Cannot generate .ovr for "@
                    + crate::numbers::decimal(bands as nat) + " bands (max supported: 4)"@
            } else if sizes.len() > 0 && failure is Some {
                plan is Err && plan->Err_0@ == failure->Some_0
            } else {
                &&& plan is Ok
                &&& plan->Ok_0@.len() == sizes.len()
                &&& forall|i: int|
                    0 <= i < sizes.len() ==> #[trigger] plan->Ok_0@[i] == level_at(
                        width,
                        height,
                        bands as nat,
                        i,
                    )
            }
        }),
{
    match ovr_bands_supported(bands) {
        Ok(()) => {},
        Err(e) => {
            return Err(e);
        },
    }
    let sizes: Vec<(u32, u32)> = overview_levels(width, height);
    let mut plan: Vec<OvrLevel> = Vec::new();
    let mut src_w: u32 = width;
    let mut src_h: u32 = height;
    for i in 0..sizes.len()
        invariant
            1 <= bands <= 4,
            sizes@ == levels_from(width as int, height as int, 0),
            plan@.len() == i,
            i > 0 ==> layout_failure(sample, bands as nat) is None,
            (src_w, src_h) == (if i == 0 {
                (width, height)
            } else {
                sizes@[i - 1]
            }),
            forall|k: int|
                0 <= k < i ==> #[trigger] plan@[k] == level_at(width, height, bands as nat, k),
    {
        let layout: BandLayout = match level_layout(sample, bands) {
            Ok(layout) => layout,
            Err(e) => {
                return Err(e);
            },
        };
        let size: (u32, u32) = sizes[i];
        plan.push(OvrLevel { src_w, src_h, width: size.0, height: size.1, layout });
        src_w = size.0;
        src_h = size.1;
    }
    Ok(plan)
}

/// The neighbour of a row or column, inside a length.
pub open spec fn neighbour(i: int, n: int) -> int {
    if i + 1 <= n - 1 {
        i + 1
    } else {
        n - 1
    }
}

/// Shrinks an image: each sample of the result mixes four neighbouring samples of the
/// source. `xs` and `ys` give the left column and the upper row of the four for each
/// column and row of the result, and `mix` is told the place in the result.
pub fn bilinear_downsample<T: Copy, F: Fn(T, T, T, T, u32, u32) -> T>(
    data: &[T],
    src_w: u32,
    src_h: u32,
    bands: usize,
    xs: &[u32],
    ys: &[u32],
    mix: F,
) -> (out: Vec<T>)
    requires
        xs@.len() <= u32::MAX,
        ys@.len() <= u32::MAX,
        forall|i: int| 0 <= i < xs@.len() ==> #[trigger] xs@[i] < src_w,
        forall|i: int| 0 <= i < ys@.len() ==> #[trigger] ys@[i] < src_h,
        src_h * src_w * bands <= data@.len(),
        forall|a: T, b: T, c: T, d: T, x: u32, y: u32| mix.requires((a, b, c, d, x, y)),
    ensures
        out@.len() == ys@.len() * xs@.len() * bands,
        forall|dy: int, dx: int, b: int|
            #![trigger raster_load::cell(dy, dx, b, xs@.len() as int, bands as int)]
            0 <= dy < ys@.len() && 0 <= dx < xs@.len() && 0 <= b < bands ==> mixes(
                data@,
                src_w as int,
                src_h as int,
                bands as int,
                xs@,
                ys@,
                mix,
                dy,
                dx,
                b,
                out@[raster_load::cell(dy, dx, b, xs@.len() as int, bands as int)],
            ),
{
    let ghost w = xs@.len() as int;
    let ghost h = ys@.len() as int;
    let ghost n = bands as int;
    let cols: usize = src_w as usize;
    let rows: usize = src_h as usize;
    let total: usize = data.len();
    let mut out: Vec<T> = Vec::new();
    proof {
        assert(0 * w * n == 0) by (nonlinear_arith);
    }
    let mut dy: usize = 0;
    while dy < ys.len()
        invariant
            dy <= h,
            w == xs@.len(),
            h == ys@.len(),
            n == bands,
            cols == src_w,
            rows == src_h,
            total == data@.len(),
            w <= u32::MAX,
            h <= u32::MAX,
            forall|i: int| 0 <= i < xs@.len() ==> #[trigger] xs@[i] < src_w,
            forall|i: int| 0 <= i < ys@.len() ==> #[trigger] ys@[i] < src_h,
            src_h * src_w * bands <= data@.len(),
            forall|a: T, b: T, c: T, d: T, x: u32, y: u32| mix.requires((a, b, c, d, x, y)),
            out@.len() == dy * w * n,
            forall|r: int, c: int, k: int|
                #![trigger raster_load::cell(r, c, k, w, n)]
                0 <= r < h && 0 <= c < w && 0 <= k < n && raster_load::cell(r, c, k, w, n)
                    < out@.len()
                    ==> mixes(
                    data@,
                    src_w as int,
                    src_h as int,
                    n,
                    xs@,
                    ys@,
                    mix,
                    r,
                    c,
                    k,
                    out@[raster_load::cell(r, c, k, w, n)],
                ),
        decreases h - dy,
    {
        let mut dx: usize = 0;
        while dx < xs.len()
            invariant
                dy < h,
                dx <= w,
                w == xs@.len(),
                h == ys@.len(),
                n == bands,
            cols == src_w,
            rows == src_h,
            total == data@.len(),
                w <= u32::MAX,
                h <= u32::MAX,
                forall|i: int| 0 <= i < xs@.len() ==> #[trigger] xs@[i] < src_w,
                forall|i: int| 0 <= i < ys@.len() ==> #[trigger] ys@[i] < src_h,
                src_h * src_w * bands <= data@.len(),
                forall|a: T, b: T, c: T, d: T, x: u32, y: u32| mix.requires((a, b, c, d, x, y)),
                out@.len() == (dy * w + dx) * n,
                forall|r: int, c: int, k: int|
                    #![trigger raster_load::cell(r, c, k, w, n)]
                    0 <= r < h && 0 <= c < w && 0 <= k < n && raster_load::cell(r, c, k, w, n)
                        < out@.len()
                        ==> mixes(
                        data@,
                        src_w as int,
                        src_h as int,
                        n,
                        xs@,
                        ys@,
                        mix,
                        r,
                        c,
                        k,
                        out@[raster_load::cell(r, c, k, w, n)],
                    ),
            decreases w - dx,
        {
            let x0: u32 = xs[dx];
            let y0: u32 = ys[dy];
            let x1: u32 = if x0 < src_w - 1 {
                x0 + 1
            } else {
                src_w - 1
            };
            let y1: u32 = if y0 < src_h - 1 {
                y0 + 1
            } else {
                src_h - 1
            };
            for b in 0..bands
                invariant
                    dy < h,
                    dx < w,
                    w == xs@.len(),
                    h == ys@.len(),
                    n == bands,
            cols == src_w,
            rows == src_h,
            total == data@.len(),
                    w <= u32::MAX,
                    h <= u32::MAX,
                    x0 == xs@[dx as int],
                    y0 == ys@[dy as int],
                    x0 < src_w,
                    y0 < src_h,
                    x1 == neighbour(x0 as int, src_w as int),
                    y1 == neighbour(y0 as int, src_h as int),
                    src_h * src_w * bands <= data@.len(),
                    forall|a: T, b: T, c: T, d: T, x: u32, y: u32|
                        mix.requires((a, b, c, d, x, y)),
                    out@.len() == (dy * w + dx) * n + b,
                    forall|r: int, c: int, k: int|
                        #![trigger raster_load::cell(r, c, k, w, n)]
                        0 <= r < h && 0 <= c < w && 0 <= k < n && raster_load::cell(r, c, k, w, n)
                            < out@.len()
                            ==> mixes(
                            data@,
                            src_w as int,
                            src_h as int,
                            n,
                            xs@,
                            ys@,
                            mix,
                            r,
                            c,
                            k,
                            out@[raster_load::cell(r, c, k, w, n)],
                        ),
            {
                let i00: usize = sample_index(y0 as usize, x0 as usize, b, cols, rows, bands, total);
                let i10: usize = sample_index(y0 as usize, x1 as usize, b, cols, rows, bands, total);
                let i01: usize = sample_index(y1 as usize, x0 as usize, b, cols, rows, bands, total);
                let i11: usize = sample_index(y1 as usize, x1 as usize, b, cols, rows, bands, total);
                let v: T = mix(data[i00], data[i10], data[i01], data[i11], dx as u32, dy as u32);
                let ghost prior = out@;
                out.push(v);
                proof {
                    assert forall|r: int, c: int, k: int|
                        #![trigger raster_load::cell(r, c, k, w, n)]
                        0 <= r < h && 0 <= c < w && 0 <= k < n && raster_load::cell(r, c, k, w, n)
                            < out@.len() implies mixes(
                        data@,
                        src_w as int,
                        src_h as int,
                        n,
                        xs@,
                        ys@,
                        mix,
                        r,
                        c,
                        k,
                        out@[raster_load::cell(r, c, k, w, n)],
                    ) by {
                        raster_load::lemma_cell_bound(r, c, k, h, w, n);
                        if raster_load::cell(r, c, k, w, n) == prior.len() {
                            raster_load::lemma_cell_injective(
                                r,
                                c,
                                k,
                                dy as int,
                                dx as int,
                                b as int,
                                w,
                                n,
                            );
                        }
                    }
                }
            }
            proof {
                assert((dy * w + (dx + 1)) * n == (dy * w + dx) * n + n) by (nonlinear_arith);
            }
            dx += 1;
        }
        proof {
            assert((dy + 1) * w * n == (dy * w + w) * n) by (nonlinear_arith);
        }
        dy += 1;
    }
    proof {
        assert forall|r: int, c: int, k: int|
            #![trigger raster_load::cell(r, c, k, w, n)]
            0 <= r < h && 0 <= c < w && 0 <= k < n implies mixes(
            data@,
            src_w as int,
            src_h as int,
            n,
            xs@,
            ys@,
            mix,
            r,
            c,
            k,
            out@[raster_load::cell(r, c, k, w, n)],
        ) by {
            raster_load::lemma_cell_bound(r, c, k, h, w, n);
        }
    }
    out
}

/// `v` is what `mix` gives for the four samples of band `b` around the place that the
/// pixel in row `dy` and column `dx` of the result has in the source.
pub open spec fn mixes<T, F: Fn(T, T, T, T, u32, u32) -> T>(
    data: Seq<T>,
    src_w: int,
    src_h: int,
    bands: int,
    xs: Seq<u32>,
    ys: Seq<u32>,
    mix: F,
    dy: int,
    dx: int,
    b: int,
    v: T,
) -> bool {
    let x0 = xs[dx] as int;
    let y0 = ys[dy] as int;
    let x1 = neighbour(x0, src_w);
    let y1 = neighbour(y0, src_h);
    mix.ensures(
        (
            data[raster_load::cell(y0, x0, b, src_w, bands)],
            data[raster_load::cell(y0, x1, b, src_w, bands)],
            data[raster_load::cell(y1, x0, b, src_w, bands)],
            data[raster_load::cell(y1, x1, b, src_w, bands)],
            dx as u32,
            dy as u32,
        ),
        v,
    )
}

// ─── What holds of overviews ───

proof fn lemma_levels_stop(w: int, h: int, made: nat)
    requires
        0 <= w <= u32::MAX,
        0 <= h <= u32::MAX,
        made <= MAX_OVERVIEW_LEVELS,
    ensures
        ({
            let l = levels_from(w, h, made);
            &&& l.len() + made <= 8
            &&& l.len() > 0 ==> w > 256 || h > 256
            &&& forall|i: int|
                0 <= i < l.len() - 1 ==> (#[trigger] l[i]).0 > 256 || l[i].1 > 256
            &&& l.len() + made < 8 && l.len() > 0 ==> l.last().0 <= 256 && l.last().1 <= 256
            &&& l.len() + made < 8 && l.len() == 0 ==> w <= 256 && h <= 256
        }),
    decreases MAX_OVERVIEW_LEVELS - made,
{
    let l = levels_from(w, h, made);
    if l.len() > 0 {
        let rest = levels_from(half(w), half(h), made + 1);
        lemma_levels_stop(half(w), half(h), made + 1);
        assert(l =~= seq![(half(w) as u32, half(h) as u32)] + rest);
        assert forall|i: int| 0 <= i < l.len() - 1 implies (#[trigger] l[i]).0 > 256 || l[i].1
            > 256 by {
            if i > 0 {
                assert(l[i] == rest[i - 1]);
            }
        }
        if rest.len() > 0 {
            assert(l.last() == rest.last());
        } else {
            assert(l.last() == l[0]);
        }
    }
}

/// Overviews are made as long as a side is longer than 256, but no more than eight. Each has
/// half of each side of the one before, rounded down, but no side shorter than one.
pub proof fn law_sizes_of_overviews(width: u32, height: u32, levels: Vec<(u32, u32)>)
    requires
        call_ensures(overview_levels, (width, height), levels),
    ensures
        levels@.len() <= 8,
        levels@.len() > 0 <==> width > 256 || height > 256,
        forall|i: int|
            0 <= i < levels@.len() ==> {
                let (w, h) = if i == 0 {
                    (width, height)
                } else {
                    levels@[i - 1]
                };
                let (a, b) = #[trigger] levels@[i];
                &&& w > 256 || h > 256
                &&& a == w / 2 || (w <= 1 && a == 1)
                &&& b == h / 2 || (h <= 1 && b == 1)
                &&& a >= 1 && b >= 1
            },
        levels@.len() < 8 && levels@.len() > 0 ==> levels@.last().0 <= 256 && levels@.last().1
            <= 256,
{
    lemma_levels_stop(width as int, height as int, 0);
    law_levels_halve(width, height);
    let l = levels_from(width as int, height as int, 0);
    assert forall|i: int| 0 <= i < l.len() implies {
        let (w, h) = if i == 0 {
            (width, height)
        } else {
            l[i - 1]
        };
        let (a, b) = #[trigger] l[i];
        &&& w > 256 || h > 256
        &&& a == w / 2 || (w <= 1 && a == 1)
        &&& b == h / 2 || (h <= 1 && b == 1)
        &&& a >= 1 && b >= 1
    } by {
        if i > 0 {
            assert(l[i - 1].0 > 256 || l[i - 1].1 > 256);
        }
    }
}

/// The overviews of an image are made one from the other, the first from the image: each has the
/// size of its step, and all are written alike, one band as gray, three as colours, four with
/// opacity. More than four bands are refused, and where there is an overview to write, samples
/// of an unknown type, and two bands of doubles.
pub proof fn law_overviews_are_made_in_turn(
    width: u32,
    height: u32,
    bands: usize,
    sample: SampleType,
    plan: Result<Vec<OvrLevel>, String>,
    levels: Vec<(u32, u32)>,
)
    requires
        call_ensures(generate_ovr, (width, height, bands, sample), plan),
        call_ensures(overview_levels, (width, height), levels),
        bands >= 1,
    ensures
        plan is Ok <==> bands <= 4 && (levels@.len() == 0 || !(sample is Other || (sample is F64
            && bands == 2))),
        plan is Ok ==> plan->Ok_0@.len() == levels@.len(),
        plan is Ok ==> forall|i: int|
            0 <= i < levels@.len() ==> {
                let p = #[trigger] plan->Ok_0@[i];
                &&& p.width == levels@[i].0
                &&& p.height == levels@[i].1
                &&& i == 0 ==> p.src_w == width && p.src_h == height
                &&& i > 0 ==> p.src_w == levels@[i - 1].0 && p.src_h == levels@[i - 1].1
                &&& bands == 1 <==> p.layout is Gray
                &&& bands == 2 <==> p.layout is GrayExtra
                &&& bands == 3 <==> p.layout is Rgb
                &&& bands == 4 <==> p.layout is Rgba
            },
{
    let sizes = levels_from(width as int, height as int, 0);
    if plan is Ok {
        assert forall|i: int| 0 <= i < levels@.len() implies {
            let p = #[trigger] plan->Ok_0@[i];
            &&& p.width == levels@[i].0
            &&& p.height == levels@[i].1
            &&& i == 0 ==> p.src_w == width && p.src_h == height
            &&& i > 0 ==> p.src_w == levels@[i - 1].0 && p.src_h == levels@[i - 1].1
            &&& bands == 1 <==> p.layout is Gray
            &&& bands == 2 <==> p.layout is GrayExtra
            &&& bands == 3 <==> p.layout is Rgb
            &&& bands == 4 <==> p.layout is Rgba
        } by {
            assert(plan->Ok_0@[i] == level_at(width, height, bands as nat, i));
        }
    }
}

/// Each sample of a shrunken image is mixed from four samples of its band: those in the left
/// column and the next, and in the upper row and the next, of its place in the source. At an
/// edge the last column or row takes the place of the next.
pub proof fn law_four_samples_are_mixed<T: Copy, F: Fn(T, T, T, T, u32, u32) -> T>(
    data: &[T],
    src_w: u32,
    src_h: u32,
    bands: usize,
    xs: &[u32],
    ys: &[u32],
    mix: F,
    out: Vec<T>,
    dy: int,
    dx: int,
    b: int,
    x1: int,
    y1: int,
)
    requires
        call_ensures(
            bilinear_downsample::<T, F>,
            (data, src_w, src_h, bands, xs, ys, mix),
            out,
        ),
        0 <= dy < ys@.len(),
        0 <= dx < xs@.len(),
        0 <= b < bands,
        xs@[dx] < src_w,
        ys@[dy] < src_h,
        x1 == xs@[dx] + 1 || (xs@[dx] == src_w - 1 && x1 == xs@[dx]),
        x1 < src_w,
        y1 == ys@[dy] + 1 || (ys@[dy] == src_h - 1 && y1 == ys@[dy]),
        y1 < src_h,
    ensures
        out@.len() == ys@.len() * xs@.len() * bands,
        mix.ensures(
            (
                data@[(ys@[dy] * src_w + xs@[dx]) * bands + b],
                data@[(ys@[dy] * src_w + x1) * bands + b],
                data@[(y1 * src_w + xs@[dx]) * bands + b],
                data@[(y1 * src_w + x1) * bands + b],
                dx as u32,
                dy as u32,
            ),
            out@[(dy * xs@.len() + dx) * bands + b],
        ),
{
    let at = raster_load::cell(dy, dx, b, xs@.len() as int, bands as int);
    assert(mixes(
        data@,
        src_w as int,
        src_h as int,
        bands as int,
        xs@,
        ys@,
        mix,
        dy,
        dx,
        b,
        out@[at],
    ));
}

/// The numbers in bytes: with the least byte first where the order is little, else with the
/// greatest first.
pub proof fn law_bytes_make_numbers(bytes: Seq<u8>, off: int)
    ensures
        u16_at(bytes, true, off) == bytes[off] + 256 * bytes[off + 1],
        u16_at(bytes, false, off) == 256 * bytes[off] + bytes[off + 1],
        u32_at(bytes, true, off) == bytes[off] + 256 * (bytes[off + 1] + 256 * (bytes[off + 2]
            + 256 * bytes[off + 3])),
        u32_at(bytes, false, off) == bytes[off + 3] + 256 * (bytes[off + 2] + 256 * (bytes[off + 1]
            + 256 * bytes[off])),
{
}

/// The order of bytes: two letters I for the least first, two letters M for the greatest first.
pub proof fn law_order_of_bytes(bytes: Seq<u8>)
    ensures
        is_little_endian(bytes) == Some(true) <==> bytes[0] == 73 && bytes[1] == 73,
        is_little_endian(bytes) == Some(false) <==> bytes[0] == 77 && bytes[1] == 77,
{
}

proof fn lemma_tag_value(entries: Seq<(u16, u32)>, tag: u16)
    ensures
        tag_value(entries, tag) is None ==> forall|i: int|
            0 <= i < entries.len() ==> (#[trigger] entries[i]).0 != tag,
        tag_value(entries, tag) matches Some(v) ==> exists|i: int|
            0 <= i < entries.len() && #[trigger] entries[i] == (tag, v) && forall|j: int|
                0 <= j < i ==> (#[trigger] entries[j]).0 != tag,
    decreases entries.len(),
{
    if entries.len() > 0 && entries[0].0 != tag {
        let rest = entries.drop_first();
        lemma_tag_value(rest, tag);
        match tag_value(entries, tag) {
            None => {
                assert forall|i: int| 0 <= i < entries.len() implies (#[trigger] entries[i]).0
                    != tag by {
                    if i > 0 {
                        assert(entries[i] == rest[i - 1]);
                    }
                }
            },
            Some(v) => {
                let i = choose|i: int|
                    0 <= i < rest.len() && #[trigger] rest[i] == (tag, v) && forall|j: int|
                        0 <= j < i ==> (#[trigger] rest[j]).0 != tag;
                assert(entries[i + 1] == (tag, v));
                assert forall|j: int| 0 <= j < i + 1 implies (#[trigger] entries[j]).0 != tag by {
                    if j > 0 {
                        assert(entries[j] == rest[j - 1]);
                    }
                }
            },
        }
    } else if entries.len() > 0 {
        assert(entries[0] == (tag, entries[0].1));
    }
}

/// The value of a tag is that of its first entry, and there is none without an entry.
pub proof fn law_first_entry_counts(entries: &[(u16, u32)], tag: u16, value: Option<u32>)
    requires
        call_ensures(read_u16_ifd_entry, (entries, tag), value),
    ensures
        value is None ==> forall|i: int| 0 <= i < entries@.len() ==> (#[trigger] entries@[i]).0 != tag,
        value matches Some(v) ==> exists|i: int|
            0 <= i < entries@.len() && #[trigger] entries@[i] == (tag, v) && forall|j: int|
                0 <= j < i ==> (#[trigger] entries@[j]).0 != tag,
{
    lemma_tag_value(entries@, tag);
}

/// A directory that a file holds in full has as many entries as it says, each of twelve bytes:
/// its tag in the first two, its value in the last four.
pub proof fn law_entries_of_a_directory(bytes: Seq<u8>, little: bool, off: int, i: int)
    requires
        off >= 0,
        off + 2 + 12 * u16_at(bytes, little, off) <= bytes.len(),
        0 <= i < u16_at(bytes, little, off),
    ensures
        directory_entries(bytes, little, off).len() == u16_at(bytes, little, off),
        directory_entries(bytes, little, off)[i] == (
            u16_at(bytes, little, off + 2 + 12 * i),
            u32_at(bytes, little, off + 10 + 12 * i),
        ),
{
    lemma_entries_at(bytes, little, off + 2, u16_at(bytes, little, off) as nat, i);
}

proof fn lemma_entries_at(bytes: Seq<u8>, little: bool, base: int, n: nat, i: int)
    requires
        base + 12 * n <= bytes.len(),
        0 <= i < n,
    ensures
        entries_at(bytes, little, base, n).len() == n,
        entries_at(bytes, little, base, n)[i] == (
            u16_at(bytes, little, base + 12 * i),
            u32_at(bytes, little, base + 8 + 12 * i),
        ),
    decreases n,
{
    let m = (n - 1) as nat;
    let before = entries_at(bytes, little, base, m);
    if m > 0 {
        lemma_entries_at(
            bytes,
            little,
            base,
            m,
            if i < m {
                i
            } else {
                0
            },
        );
    } else {
        assert(before == Seq::<(u16, u32)>::empty());
    }
    let off = base + 12 * (n - 1);
    assert(entries_at(bytes, little, base, n) == before.push(
        (u16_at(bytes, little, off), u32_at(bytes, little, off + 8)),
    ));
}

/// The image of a directory has the sizes that tags 256 and 257 give, and none where one is
/// missing or zero. With tag 322 it is tiled: tiles are that wide, as high as tag 323 says or
/// else as wide, and a row of them covers the image. Without it, it is cut into strips as wide
/// as the image and as high as tag 279 says or else as the image.
pub proof fn law_images_of_directories(bytes: Seq<u8>, little: bool, off: int)
    requires
        off >= 0,
        off <= u32::MAX,
        tiles_countable(bytes, little, off),
    ensures
        ({
            let e = directory_entries(bytes, little, off);
            match image_at(bytes, little, off) {
                None => tag_value(e, 256) is None || tag_value(e, 256) == Some(0u32) || tag_value(
                    e,
                    257,
                ) is None || tag_value(e, 257) == Some(0u32),
                Some(image) => {
                    &&& image.offset == off
                    &&& tag_value(e, 256) == Some(image.width) && image.width > 0
                    &&& tag_value(e, 257) == Some(image.height) && image.height > 0
                    &&& image.chunk_type is Tile <==> tag_value(e, 322) is Some
                    &&& image.chunk_type is Tile ==> {
                        &&& tag_value(e, 322) == Some(image.chunk_width)
                        &&& tag_value(e, 323) is Some ==> tag_value(e, 323) == Some(
                            image.chunk_length,
                        )
                        &&& tag_value(e, 323) is None ==> image.chunk_length == image.chunk_width
                        &&& image.width <= image.chunks_per_row * image.chunk_width < image.width
                            + image.chunk_width
                    }
                    &&& image.chunk_type is Strip ==> {
                        &&& image.chunk_width == image.width
                        &&& image.chunks_per_row == 1
                        &&& tag_value(e, 279) is Some ==> tag_value(e, 279) == Some(
                            image.chunk_length,
                        )
                        &&& tag_value(e, 279) is None ==> image.chunk_length == image.height
                    }
                },
            }
        }),
{
    let e = directory_entries(bytes, little, off);
    match image_at(bytes, little, off) {
        Some(image) => {
            if image.chunk_type is Tile {
                let (w, tw) = (image.width as int, image.chunk_width as int);
                raster_load::law_parts_are_rounded_up(w, tw);
                let q = raster_load::ceil_div(w, tw);
                vstd::arithmetic::div_mod::lemma_div_is_ordered_by_denominator(w + tw - 1, 1, tw);
                vstd::arithmetic::div_mod::lemma_div_pos_is_pos(w + tw - 1, tw);
                assert(image.chunks_per_row == q);
            }
        },
        None => {},
    }
}

/// The next directory is where the four bytes behind the entries of a directory say, and there
/// is none where they are zero or missing.
pub proof fn law_directories_are_chained(bytes: Seq<u8>, little: bool, off: int)
    ensures
        ({
            let at = off + 2 + 12 * u16_at(bytes, little, off);
            match next_directory(bytes, little, off) {
                Some(next) => at + 4 <= bytes.len() && next == u32_at(bytes, little, at) && next
                    != 0,
                None => at + 4 > bytes.len() || u32_at(bytes, little, at) == 0,
            }
        }),
{
}

/// The images of an overview file are those of its directories from the first on, whose place
/// stands in the fifth to the eighth byte: that of a directory comes before those of the next,
/// and a directory without an image gives none.
pub proof fn law_images_in_order(bytes: Seq<u8>, little: bool, off: int, fuel: nat)
    ensures
        is_little_endian(bytes) == Some(little) ==> ovr_images(bytes) == images_from(
            bytes,
            little,
            u32_at(bytes, little, 4) as int,
            bytes.len(),
        ),
        off + 2 > bytes.len() ==> images_from(bytes, little, off, fuel).len() == 0,
        off + 2 <= bytes.len() && fuel > 0 ==> {
            let rest = match next_directory(bytes, little, off) {
                Some(next) => images_from(bytes, little, next, (fuel - 1) as nat),
                None => Seq::empty(),
            };
            match image_at(bytes, little, off) {
                Some(image) => images_from(bytes, little, off, fuel).len() == rest.len() + 1
                    && images_from(bytes, little, off, fuel)[0] == image && images_from(
                    bytes,
                    little,
                    off,
                    fuel,
                ).skip(1) == rest,
                None => images_from(bytes, little, off, fuel) == rest,
            }
        },
{
    if off + 2 <= bytes.len() && fuel > 0 {
        let rest = match next_directory(bytes, little, off) {
            Some(next) => images_from(bytes, little, next, (fuel - 1) as nat),
            None => Seq::empty(),
        };
        match image_at(bytes, little, off) {
            Some(image) => {
                assert(images_from(bytes, little, off, fuel).skip(1) =~= rest);
            },
            None => {},
        }
    }
}

/// The images of an overview file are numbered one behind the other, lie in that file at their
/// directories, and have the sizes and chunks that their directories say.
pub proof fn law_images_are_described(
    bytes: &[u8],
    path: &str,
    base: usize,
    ifds: Result<Vec<IfdInfo>, String>,
    i: int,
)
    requires
        call_ensures(parse_ovr_ifd_offsets, (bytes, path, base), ifds),
        bytes@.len() >= 8,
        (bytes@[0] == 73 && bytes@[1] == 73) || (bytes@[0] == 77 && bytes@[1] == 77),
        0 <= i < ovr_images(bytes@).len(),
    ensures
        ifds is Ok,
        ifds->Ok_0@.len() == ovr_images(bytes@).len(),
        ({
            let (a, b) = (ifds->Ok_0@[i], ovr_images(bytes@)[i]);
            &&& a.index == base + i
            &&& a.external
            &&& a.ifd_ptr == Some(b.offset)
            &&& a.file_path@ == path@
            &&& a.interleave is Chunky
            &&& a.width == b.width && a.height == b.height
            &&& a.chunk_type == b.chunk_type
            &&& a.chunk_width == b.chunk_width && a.chunk_length == b.chunk_length
            &&& a.chunks_per_row == b.chunks_per_row
        }),
{
    assert(describes(ifds->Ok_0@[i], ovr_images(bytes@)[i], base + i, path@));
}

/// Overviews of up to four bands are written: gray, gray with one more band, red, green and
/// blue, and these with an alpha band. Doubles cannot be written with two bands, and samples of
/// other types not at all.
pub proof fn law_layouts_of_bands(sample: SampleType, bands: usize, layout: Result<
    BandLayout,
    String,
>)
    requires
        call_ensures(level_layout, (sample, bands), layout),
        1 <= bands <= 4,
    ensures
        layout is Err <==> sample is Other || (sample is F64 && bands == 2),
        layout is Ok ==> (layout->Ok_0 is Gray <==> bands == 1) && (layout->Ok_0 is GrayExtra
            <==> bands == 2) && (layout->Ok_0 is Rgb <==> bands == 3) && (layout->Ok_0 is Rgba
            <==> bands == 4),
        sample is Other ==> layout->Err_0@ == "Unsupported data type for .ovr generation"@,
{
}

/// A file whose directories can be walked: one that is too short or has no order of bytes has
/// none, and the chain of any other ends.
pub proof fn law_files_that_can_be_walked(bytes: &[u8], r: bool)
    requires
        call_ensures(ovr_is_walkable, (bytes,), r),
    ensures
        bytes@.len() < 8 || is_little_endian(bytes@) is None ==> r,
        bytes@.len() >= 8 && is_little_endian(bytes@) is Some ==> r == chain_ends(
            bytes@,
            is_little_endian(bytes@)->Some_0,
            u32_at(bytes@, is_little_endian(bytes@)->Some_0, 4) as int,
            bytes@.len(),
        ),
{
}

} // verus!
