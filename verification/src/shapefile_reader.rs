//! Shapefiles: their reference system and their extent.

use crate::double::{greater_of, lesser_of};
use crate::numbers::parse_unsigned;
use crate::reproject::KnownCrs;
use crate::text::{chars_of, contains_text, occurs_here, slice_text, split, str_eq};
use vstd::prelude::*;

verus! {

/// The first place of a word from `from` on.
pub open spec fn first_place(s: Seq<char>, word: Seq<char>, from: int) -> Option<int>
    decreases s.len() - from,
{
    if from >= s.len() || from + word.len() > s.len() {
        None
    } else if crate::text::occurs_at(s, word, from) {
        Some(from)
    } else {
        first_place(s, word, from + 1)
    }
}

fn find_word(s: &Vec<char>, word: &Vec<char>, from: usize) -> (place: Option<usize>)
    requires
        from <= s@.len(),
    ensures
        place is Some <==> first_place(s@, word@, from as int) is Some,
        place is Some ==> first_place(s@, word@, from as int) == Some(place->Some_0 as int)
            && from <= place->Some_0 && place->Some_0 + word@.len() <= s@.len(),
{
    let mut i: usize = from;
    let total: usize = s.len();
    while i < total && word.len() <= total - i
        invariant
            total == s@.len(),
            from <= i <= total,
            first_place(s@, word@, from as int) == first_place(s@, word@, i as int),
        decreases total - i,
    {
        if occurs_here(s.as_slice(), word.as_slice(), i) {
            return Some(i);
        }
        i += 1;
    }
    None
}

/// The text between the first word `AUTHORITY` and the next one, or the end.
pub open spec fn authority(s: Seq<char>) -> Option<Seq<char>> {
    let word = "AUTHORITY"@;
    match first_place(s, word, 0) {
        Some(i) => match first_place(s, word, i + word.len()) {
            Some(j) => Some(s.subrange(i + word.len(), j)),
            None => Some(s.skip(i + word.len())),
        },
        None => None,
    }
}

/// The code of a projection file: what stands between the third and the fourth quotation
/// mark behind the first word `AUTHORITY`.
pub open spec fn authority_code(s: Seq<char>) -> Option<Seq<char>> {
    match authority(s) {
        Some(a) => {
            let pieces = crate::text::split_spec(a, '"');
            if pieces.len() > 3 {
                Some(pieces[3])
            } else {
                None
            }
        },
        None => None,
    }
}

fn find_authority_code(content: &str) -> (code: Option<String>)
    ensures
        crate::text::text_of(code) == authority_code(content@),
{
    let s: Vec<char> = chars_of(content);
    let word: Vec<char> = chars_of("AUTHORITY");
    let from: usize = match find_word(&s, &word, 0) {
        Some(i) => {
            assert(i + word@.len() <= s.len());
            i + word.len()
        },
        None => {
            return None;
        },
    };
    let to: usize = match find_word(&s, &word, from) {
        Some(j) => j,
        None => s.len(),
    };
    let part: String = slice_text(s.as_slice(), from, to);
    assert(authority(content@) == Some(part@)) by {
        if to == s@.len() {
            assert(s@.subrange(from as int, to as int) =~= s@.skip(from as int));
        }
    }
    let pieces: Vec<String> = split(part.as_str(), '"');
    if pieces.len() > 3 {
        assert(crate::text::texts(pieces@)[3] == pieces@[3]@);
        Some(pieces[3].as_str().to_owned())
    } else {
        None
    }
}

/// The system with a code of a projection file: the two that are known by name, and the
/// zones of the northern and the southern hemisphere.
pub open spec fn epsg_system(code: int) -> Option<KnownCrs> {
    if code == 4326 {
        Some(KnownCrs::Wgs84)
    } else if code == 3857 {
        Some(KnownCrs::WebMercator)
    } else if 32601 <= code <= 32660 || 32701 <= code <= 32760 {
        Some(KnownCrs::Epsg(code as u16))
    } else {
        None
    }
}

/// The system with a code of a projection file.
pub fn parse_epsg_code(code: u16) -> (crs: Option<KnownCrs>)
    ensures
        crs == epsg_system(code as int),
{
    if code == 4326 {
        Some(KnownCrs::Wgs84)
    } else if code == 3857 {
        Some(KnownCrs::WebMercator)
    } else if (32601 <= code && code <= 32660) || (32701 <= code && code <= 32760) {
        Some(KnownCrs::Epsg(code))
    } else {
        None
    }
}

/// The system that words in a projection file stand for.
pub open spec fn system_by_words(s: Seq<char>) -> Option<KnownCrs> {
    if crate::text::has_text(s, "4326"@) || crate::text::has_text(s, "WGS 84"@)
        || crate::text::has_text(s, "GCS_WGS_1984"@) {
        Some(KnownCrs::Wgs84)
    } else if crate::text::has_text(s, "3857"@) || crate::text::has_text(s, "900913"@)
        || crate::text::has_text(s, "Mercator"@) {
        Some(KnownCrs::WebMercator)
    } else {
        None
    }
}

/// The system that a projection file stands for: by its code where it has one that is a
/// number, else by its words.
pub open spec fn prj_system(s: Seq<char>) -> Option<KnownCrs> {
    match authority_code(s) {
        Some(code) => if code == "900913"@ {
            Some(KnownCrs::WebMercator)
        } else {
            match crate::numbers::unsigned_value(code, u16::MAX as nat) {
                Some(n) => epsg_system(n as int),
                None => system_by_words(s),
            }
        },
        None => system_by_words(s),
    }
}

/// The system that a projection file stands for, from its contents.
pub fn parse_prj_file(content: &str) -> (crs: Option<KnownCrs>)
    ensures
        crs == prj_system(content@),
{
    match find_authority_code(content) {
        Some(code) => {
            if str_eq(code.as_str(), "900913") {
                return Some(KnownCrs::WebMercator);
            }
            match parse_unsigned(code.as_str(), 65535) {
                Some(n) => {
                    return parse_epsg_code(n as u16);
                },
                None => {},
            }
        },
        None => {},
    }
    if contains_text(content, "4326") || contains_text(content, "WGS 84") || contains_text(
        content,
        "GCS_WGS_1984",
    ) {
        return Some(KnownCrs::Wgs84);
    }
    if contains_text(content, "3857") || contains_text(content, "900913") || contains_text(
        content,
        "Mercator",
    ) {
        return Some(KnownCrs::WebMercator);
    }
    None
}

/// The system of a shapefile: that of its projection file, or degrees.
pub fn shapefile_crs(prj: Option<&str>) -> (crs: KnownCrs)
    ensures
        crs == (match prj {
            Some(content) => match prj_system(content@) {
                Some(crs) => crs,
                None => KnownCrs::Wgs84,
            },
            None => KnownCrs::Wgs84,
        }),
{
    match prj {
        Some(content) => match parse_prj_file(content) {
            Some(crs) => crs,
            None => KnownCrs::Wgs84,
        },
        None => KnownCrs::Wgs84,
    }
}

/// A shape in degrees: `convert` gives it for one of another system. A shape that cannot
/// be converted stays as it is.
pub fn convert_shape<G, C: Fn(&G) -> Option<G>>(shape: G, crs: KnownCrs, convert: C) -> (r: G)
    requires
        forall|g: &G| convert.requires((g,)),
    ensures
        crs is Wgs84 ==> r == shape,
        !(crs is Wgs84) ==> exists|converted: Option<G>| #[trigger]
            convert.ensures((&shape,), converted) && r == (match converted {
                Some(g) => g,
                None => shape,
            }),
{
    match crs {
        KnownCrs::Wgs84 => shape,
        _ => match convert(&shape) {
            Some(g) => g,
            None => shape,
        },
    }
}

/// The extent of several extents, by the bits of their numbers.
pub open spec fn joined(rects: Seq<[u64; 4]>) -> Seq<u64>
    decreases rects.len(),
{
    let r = rects.last()@;
    if rects.len() <= 1 {
        r
    } else {
        let e = joined(rects.drop_last());
        seq![
            crate::double::lesser(e[0], r[0]),
            crate::double::lesser(e[1], r[1]),
            crate::double::greater(e[2], r[2]),
            crate::double::greater(e[3], r[3]),
        ]
    }
}

/// The extent of the features of a shapefile, from those of each; zeros where there is
/// none.
pub fn shapefile_extent(rects: &Vec<[u64; 4]>) -> (extent: [u64; 4])
    ensures
        rects@.len() == 0 ==> extent@ == seq![0u64, 0u64, 0u64, 0u64],
        rects@.len() > 0 ==> extent@ == joined(rects@),
{
    if rects.len() == 0 {
        let zeros: [u64; 4] = [0, 0, 0, 0];
        assert(zeros@ =~= seq![0u64, 0u64, 0u64, 0u64]);
        return zeros;
    }
    let mut e: [u64; 4] = rects[0];
    assert(rects@.take(1).last() == rects@[0]);
    let mut i: usize = 1;
    while i < rects.len()
        invariant
            1 <= i <= rects@.len(),
            e@ == joined(rects@.take(i as int)),
        decreases rects@.len() - i,
    {
        let r: [u64; 4] = rects[i];
        assert(rects@.take(i + 1).drop_last() =~= rects@.take(i as int));
        assert(rects@.take(i + 1).last() == r);
        let next: [u64; 4] = [
            lesser_of(e[0], r[0]),
            lesser_of(e[1], r[1]),
            greater_of(e[2], r[2]),
            greater_of(e[3], r[3]),
        ];
        assert(next@ =~= joined(rects@.take(i + 1)));
        e = next;
        i += 1;
    }
    assert(rects@.take(rects@.len() as int) =~= rects@);
    e
}

/// A number is that of some extent, on a side.
pub open spec fn is_side_of(rects: Seq<[u64; 4]>, side: int, v: u64) -> bool {
    exists|k: int| 0 <= k < rects.len() && (#[trigger] rects[k])@[side] == v
}

/// All numbers of extents are numbers or infinite.
pub open spec fn are_numbers(rects: Seq<[u64; 4]>) -> bool {
    forall|k: int|
        #![trigger rects[k]]
        0 <= k < rects.len() ==> {
            &&& crate::double::is_number(rects[k]@[0])
            &&& crate::double::is_number(rects[k]@[1])
            &&& crate::double::is_number(rects[k]@[2])
            &&& crate::double::is_number(rects[k]@[3])
        }
}

/// An extent `[west, south, east, north]` holds another one.
pub open spec fn holds_rect(extent: Seq<u64>, r: Seq<u64>) -> bool {
    &&& crate::double::rank(extent[0]) <= crate::double::rank(r[0])
    &&& crate::double::rank(extent[1]) <= crate::double::rank(r[1])
    &&& crate::double::rank(r[2]) <= crate::double::rank(extent[2])
    &&& crate::double::rank(r[3]) <= crate::double::rank(extent[3])
}

proof fn lemma_side_stays(rects: Seq<[u64; 4]>, side: int, v: u64)
    requires
        rects.len() > 0,
        is_side_of(rects.drop_last(), side, v),
    ensures
        is_side_of(rects, side, v),
{
    let before = rects.drop_last();
    let k = choose|k: int| 0 <= k < before.len() && (#[trigger] before[k])@[side] == v;
    assert(rects[k]@[side] == v);
}

proof fn lemma_joined(rects: Seq<[u64; 4]>)
    requires
        rects.len() > 0,
        are_numbers(rects),
    ensures
        joined(rects).len() == 4,
        crate::double::is_number(joined(rects)[0]),
        crate::double::is_number(joined(rects)[1]),
        crate::double::is_number(joined(rects)[2]),
        crate::double::is_number(joined(rects)[3]),
        forall|k: int| 0 <= k < rects.len() ==> holds_rect(joined(rects), (#[trigger] rects[k])@),
        is_side_of(rects, 0, joined(rects)[0]),
        is_side_of(rects, 1, joined(rects)[1]),
        is_side_of(rects, 2, joined(rects)[2]),
        is_side_of(rects, 3, joined(rects)[3]),
    decreases rects.len(),
{
    let n = rects.len() - 1;
    let last = rects[n];
    assert(rects.last() == last);
    let e = joined(rects);
    if rects.len() > 1 {
        let before = rects.drop_last();
        assert(are_numbers(before)) by {
            assert forall|k: int|
                #![trigger before[k]]
                0 <= k < before.len() implies {
                &&& crate::double::is_number(before[k]@[0])
                &&& crate::double::is_number(before[k]@[1])
                &&& crate::double::is_number(before[k]@[2])
                &&& crate::double::is_number(before[k]@[3])
            } by {
                assert(before[k] == rects[k]);
            }
        }
        lemma_joined(before);
        let d = joined(before);
        assert forall|k: int| 0 <= k < rects.len() implies holds_rect(
            e,
            (#[trigger] rects[k])@,
        ) by {
            if k < n {
                assert(before[k] == rects[k]);
                assert(holds_rect(d, before[k]@));
            }
        }
        lemma_side_stays(rects, 0, d[0]);
        lemma_side_stays(rects, 1, d[1]);
        lemma_side_stays(rects, 2, d[2]);
        lemma_side_stays(rects, 3, d[3]);
        assert(e[0] == d[0] || e[0] == rects[n]@[0]);
        assert(e[1] == d[1] || e[1] == rects[n]@[1]);
        assert(e[2] == d[2] || e[2] == rects[n]@[2]);
        assert(e[3] == d[3] || e[3] == rects[n]@[3]);
    } else {
        assert(e == rects[0]@);
    }
}

/// The extent of a shapefile holds that of every feature, and each of its sides is that of
/// some feature, where all bounds are numbers. Without features it is all zeros.
pub proof fn law_extent_holds_every_feature(rects: &Vec<[u64; 4]>, extent: [u64; 4])
    requires
        call_ensures(shapefile_extent, (rects,), extent),
        forall|k: int|
            #![trigger rects@[k]]
            0 <= k < rects@.len() ==> {
                &&& crate::double::is_number(rects@[k]@[0])
                &&& crate::double::is_number(rects@[k]@[1])
                &&& crate::double::is_number(rects@[k]@[2])
                &&& crate::double::is_number(rects@[k]@[3])
            },
    ensures
        forall|k: int|
            #![trigger rects@[k]]
            0 <= k < rects@.len() ==> {
                &&& crate::double::rank(extent@[0]) <= crate::double::rank(rects@[k]@[0])
                &&& crate::double::rank(extent@[1]) <= crate::double::rank(rects@[k]@[1])
                &&& crate::double::rank(rects@[k]@[2]) <= crate::double::rank(extent@[2])
                &&& crate::double::rank(rects@[k]@[3]) <= crate::double::rank(extent@[3])
            },
        rects@.len() > 0 ==> {
            &&& exists|k: int| 0 <= k < rects@.len() && (#[trigger] rects@[k])@[0] == extent@[0]
            &&& exists|k: int| 0 <= k < rects@.len() && (#[trigger] rects@[k])@[1] == extent@[1]
            &&& exists|k: int| 0 <= k < rects@.len() && (#[trigger] rects@[k])@[2] == extent@[2]
            &&& exists|k: int| 0 <= k < rects@.len() && (#[trigger] rects@[k])@[3] == extent@[3]
        },
        rects@.len() == 0 ==> extent@[0] == 0 && extent@[1] == 0 && extent@[2] == 0 && extent@[3]
            == 0,
{
    if rects@.len() > 0 {
        assert(are_numbers(rects@));
        lemma_joined(rects@);
        assert forall|k: int|
            #![trigger rects@[k]]
            0 <= k < rects@.len() implies {
            &&& crate::double::rank(extent@[0]) <= crate::double::rank(rects@[k]@[0])
            &&& crate::double::rank(extent@[1]) <= crate::double::rank(rects@[k]@[1])
            &&& crate::double::rank(rects@[k]@[2]) <= crate::double::rank(extent@[2])
            &&& crate::double::rank(rects@[k]@[3]) <= crate::double::rank(extent@[3])
        } by {
            assert(holds_rect(joined(rects@), rects@[k]@));
        }
    }
}

/// The systems by the codes of projection files: degrees, the map of the web, and the zones of
/// the north and the south, which keep their codes. Any other code has none.
pub proof fn law_systems_by_code(code: u16, crs: Option<KnownCrs>)
    requires
        call_ensures(parse_epsg_code, (code,), crs),
    ensures
        code == 4326 ==> crs == Some(KnownCrs::Wgs84),
        code == 3857 ==> crs == Some(KnownCrs::WebMercator),
        32601 <= code <= 32660 || 32701 <= code <= 32760 ==> crs == Some(KnownCrs::Epsg(code)),
        code != 4326 && code != 3857 && !(32601 <= code <= 32660 || 32701 <= code <= 32760)
            ==> crs is None,
{
}

proof fn lemma_first_place(s: Seq<char>, word: Seq<char>, from: int, at: int)
    requires
        0 <= from <= at,
        word.len() > 0,
        crate::text::occurs_at(s, word, at),
        forall|i: int| from <= i < at ==> !crate::text::occurs_at(s, word, i),
    ensures
        first_place(s, word, from) == Some(at),
    decreases at - from,
{
    if from < at {
        lemma_first_place(s, word, from + 1, at);
    }
}

proof fn lemma_no_place(s: Seq<char>, word: Seq<char>, from: int)
    requires
        0 <= from,
        word.len() > 0,
        forall|i: int| from <= i ==> !crate::text::occurs_at(s, word, i),
    ensures
        first_place(s, word, from) is None,
    decreases s.len() - from,
{
    if from < s.len() && from + word.len() <= s.len() {
        lemma_no_place(s, word, from + 1);
    }
}

proof fn lemma_place_is_real(s: Seq<char>, word: Seq<char>, from: int)
    requires
        0 <= from,
        word.len() > 0,
    ensures
        first_place(s, word, from) matches Some(at) ==> from <= at && crate::text::occurs_at(
            s,
            word,
            at,
        ),
    decreases s.len() - from,
{
    if from < s.len() && from + word.len() <= s.len() && !crate::text::occurs_at(s, word, from) {
        lemma_place_is_real(s, word, from + 1);
    }
}

/// A projection file without an authority goes by its words: those of degrees first, then those
/// of the map of the web. Without any of them it names no system.
pub proof fn law_systems_by_words(content: &str, crs: Option<KnownCrs>)
    requires
        call_ensures(parse_prj_file, (content,), crs),
        !crate::text::has_text(content@, "AUTHORITY"@),
    ensures
        ({
            let degrees = crate::text::has_text(content@, "4326"@) || crate::text::has_text(
                content@,
                "WGS 84"@,
            ) || crate::text::has_text(content@, "GCS_WGS_1984"@);
            let web = crate::text::has_text(content@, "3857"@) || crate::text::has_text(
                content@,
                "900913"@,
            ) || crate::text::has_text(content@, "Mercator"@);
            &&& degrees ==> crs == Some(KnownCrs::Wgs84)
            &&& !degrees && web ==> crs == Some(KnownCrs::WebMercator)
            &&& !degrees && !web ==> crs is None
        }),
{
    reveal_strlit("AUTHORITY");
    assert forall|i: int| 0 <= i implies !crate::text::occurs_at(content@, "AUTHORITY"@, i) by {
        if crate::text::occurs_at(content@, "AUTHORITY"@, i) {
            assert(crate::text::has_text(content@, "AUTHORITY"@));
        }
    }
    lemma_no_place(content@, "AUTHORITY"@, 0);
}

/// A projection file with an authority goes by the number behind it, whatever other words it
/// holds. The old number of the map of the web stands for it.
pub proof fn law_systems_by_authority(
    content: &str,
    crs: Option<KnownCrs>,
    a: Seq<char>,
    code: Seq<char>,
    b: Seq<char>,
    n: u16,
    known: Option<KnownCrs>,
)
    requires
        call_ensures(parse_prj_file, (content,), crs),
        call_ensures(parse_epsg_code, (n,), known),
        content@ == a + "AUTHORITY"@ + "[\"EPSG\",\""@ + code + seq!['"'] + b,
        forall|i: int| 0 <= i < a.len() ==> !crate::text::occurs_at(content@, "AUTHORITY"@, i),
        forall|i: int| 0 <= i < code.len() ==> '0' <= #[trigger] code[i] && code[i] <= '9',
    ensures
        crate::numbers::unsigned_value(code, 65535) == Some(n as nat) ==> crs == known,
        code == "900913"@ ==> crs == Some(KnownCrs::WebMercator),
{
    let s = content@;
    let word = "AUTHORITY"@;
    let q = "[\"EPSG\",\""@;
    reveal_strlit("AUTHORITY");
    reveal_strlit("[\"EPSG\",\"");
    reveal_strlit("900913");
    let at = a.len() as int;
    assert(s.subrange(at, at + 9) =~= word);
    lemma_first_place(s, word, 0, at);
    let from = at + 9;
    let inner = q + code + seq!['"'];
    let past = from + inner.len();
    assert(s =~= a + word + inner + b);
    assert forall|i: int| from <= i < past implies !crate::text::occurs_at(s, word, i) by {
        if crate::text::occurs_at(s, word, i) {
            assert(s.subrange(i, i + 9)[0] == 'A');
            assert(s[i] == inner[i - from]);
            if i - from >= q.len() && i - from < q.len() + code.len() {
                assert(inner[i - from] == code[i - from - q.len()]);
            }
        }
    }
    lemma_place_is_real(s, word, from);
    let to = match first_place(s, word, from) {
        Some(j) => j,
        None => s.len() as int,
    };
    assert(to >= past);
    let part = s.subrange(from, to);
    assert(authority(s) == Some(part)) by {
        if first_place(s, word, from) is None {
            assert(part =~= s.skip(from));
        }
    }
    let rest = s.subrange(past, to);
    let (p0, p1, p2) = (seq!['['], seq!['E', 'P', 'S', 'G'], seq![',']);
    let mark = seq!['"'];
    assert(part =~= p0 + mark + (p1 + mark + (p2 + mark + (code + mark + rest))));
    crate::text::law_pieces_add_up(
        p0,
        p1 + mark + (p2 + mark + (code + mark + rest)),
        '"',
    );
    crate::text::law_pieces_add_up(p1, p2 + mark + (code + mark + rest), '"');
    crate::text::law_pieces_add_up(p2, code + mark + rest, '"');
    crate::text::law_pieces_add_up(code, rest, '"');
    assert(!p0.contains('"') && !p1.contains('"') && !p2.contains('"'));
    assert(!code.contains('"'));
    let all = crate::text::split_spec(part, '"');
    assert(all =~= seq![p0] + (seq![p1] + (seq![p2] + (seq![code] + crate::text::split_spec(
        rest,
        '"',
    )))));
    assert(all[3] == code);
    assert(authority_code(s) == Some(code));
    if code == "900913"@ {
        lemma_old_number(code);
    }
}

proof fn lemma_old_number(code: Seq<char>)
    requires
        code == "900913"@,
    ensures
        crate::numbers::unsigned_value(code, 65535) is None,
{
    reveal_strlit("900913");
    reveal_with_fuel(crate::numbers::digits_value, 8);
    let c5 = code.drop_last();
    let c4 = c5.drop_last();
    let c3 = c4.drop_last();
    let c2 = c3.drop_last();
    let c1 = c2.drop_last();
    let c0 = c1.drop_last();
    assert(c0 =~= Seq::<char>::empty());
    assert(c1.last() == '9' && c2.last() == '0' && c3.last() == '0' && c4.last() == '9'
        && c5.last() == '1' && code.last() == '3');
    assert(crate::numbers::digits_value(c0) == 0);
    assert(crate::numbers::digits_value(c1) == 9);
    assert(crate::numbers::digits_value(c2) == 90);
    assert(crate::numbers::digits_value(c3) == 900);
    assert(crate::numbers::digits_value(c4) == 9009);
    assert(crate::numbers::digits_value(c5) == 90091);
    assert(crate::numbers::digits_value(code) == 900913);
    assert(crate::numbers::strip_plus(code) == code);
}

/// A shapefile is in the system of its projection file; without one, or where that names none,
/// its coordinates are degrees.
pub proof fn law_systems_of_shapefiles(
    content: &str,
    named: Option<KnownCrs>,
    crs: KnownCrs,
    bare: KnownCrs,
)
    requires
        call_ensures(parse_prj_file, (content,), named),
        call_ensures(shapefile_crs, (Some(content),), crs),
        call_ensures(shapefile_crs, (None,), bare),
    ensures
        named is Some ==> crs == named->Some_0,
        named is None ==> crs is Wgs84,
        bare is Wgs84,
{
}

} // verus!
