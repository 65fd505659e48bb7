//! What a raster says of its samples and of its reference system.

use crate::double::{finite, is_equal};
use crate::json::{
    json_at, json_item, json_text, member_at, read_json, text_value, JsonItem, JsonValue,
};
use crate::numbers::{decimal_text, parse_unsigned, unsigned_value};
use crate::order::stable_order;
use crate::reproject::GeoKeyInfo;
use crate::text::{
    chars_of, concat2, is_white, slice_text, str_eq, string_of, texts, trim, trim_end_char,
};
use vstd::prelude::*;

verus! {

/// A band of a raster. `F` is the type of the samples.
#[derive(Debug, Clone)]
pub struct BandInfo<F> {
    pub index: u32,
    pub min: F,
    pub max: F,
    pub mean: F,
    pub std_dev: F,
    pub no_data: Option<F>,
}

/// A raster that was read.
#[derive(Debug, Clone)]
pub struct RasterLoadResult<F> {
    pub path: String,
    pub width: u32,
    pub height: u32,
    pub bands: u32,
    pub data_type: String,
    pub crs: Option<String>,
    pub geo_transform: Option<Vec<F>>,
    pub band_info: Vec<BandInfo<F>>,
    pub extent: Option<[F; 4]>,
}

// ─── Samples without a value ───

/// The sample that stands for no value, as a file writes it.
#[derive(Debug, Clone)]
pub enum NodataText {
    NotANumber,
    Infinity,
    NegInfinity,
    /// Any other word, which may be a number.
    Word(String),
}

/// A text without white space around it, without null characters at its end, and again
/// without white space around it.
pub open spec fn cleaned(raw: Seq<char>) -> Seq<char> {
    crate::text::trim_spec(
        crate::text::trim_end_char_spec(crate::text::trim_spec(raw), '\0'),
    )
}

/// The length of the part before the first white space.
pub open spec fn word_len(s: Seq<char>) -> int
    decreases s.len(),
{
    if s.len() == 0 || crate::text::white(s[0]) {
        0
    } else {
        1 + word_len(s.drop_first())
    }
}

/// The first word of a text that does not start with white space.
pub open spec fn first_word(s: Seq<char>) -> Seq<char> {
    s.take(word_len(s))
}

/// A word in which ASCII letters are in lower case.
pub open spec fn ascii_lowered(s: Seq<char>) -> Seq<char> {
    s.map_values(|c: char| crate::text::ascii_lower(c))
}

/// What a word says of the sample for no value.
pub open spec fn says(word: Seq<char>, t: NodataText) -> bool {
    let l = ascii_lowered(word);
    if l == "nan"@ {
        t is NotANumber
    } else if l == "inf"@ || l == "+inf"@ || l == "infinity"@ || l == "+infinity"@ {
        t is Infinity
    } else if l == "-inf"@ || l == "-infinity"@ {
        t is NegInfinity
    } else {
        t matches NodataText::Word(w) && w@ == word
    }
}

/// Reads the sample that stands for no value. Where the text is empty there is none.
pub fn parse_nodata_string(raw: &str) -> (t: Option<NodataText>)
    ensures
        t is None <==> cleaned(raw@).len() == 0,
        t is Some ==> says(first_word(cleaned(raw@)), t->Some_0),
{
    let a: String = trim(raw);
    let b: String = trim_end_char(a.as_str(), '\0');
    let c: String = trim(b.as_str());
    let v: Vec<char> = chars_of(c.as_str());
    if v.len() == 0 {
        return None;
    }
    let mut n: usize = 0;
    assert(v@.skip(0) =~= v@);
    while n < v.len() && !is_white(v[n])
        invariant
            n <= v@.len(),
            word_len(v@) == n + word_len(v@.skip(n as int)),
        decreases v@.len() - n,
    {
        assert(v@.skip(n as int).drop_first() =~= v@.skip(n + 1));
        n += 1;
    }
    let word: String = slice_text(v.as_slice(), 0, n);
    assert(word@ =~= first_word(v@));
    let mut low: Vec<char> = Vec::new();
    for i in 0..n
        invariant
            n <= v@.len(),
            low@.len() == i,
            forall|j: int| 0 <= j < i ==> #[trigger] low@[j] == crate::text::ascii_lower(v@[j]),
    {
        low.push(lower_char(v[i]));
    }
    let text: String = string_of(low.as_slice());
    assert(text@ =~= ascii_lowered(word@));
    let l: &str = text.as_str();
    if str_eq(l, "nan") {
        Some(NodataText::NotANumber)
    } else if str_eq(l, "inf") || str_eq(l, "+inf") || str_eq(l, "infinity") || str_eq(
        l,
        "+infinity",
    ) {
        Some(NodataText::Infinity)
    } else if str_eq(l, "-inf") || str_eq(l, "-infinity") {
        Some(NodataText::NegInfinity)
    } else {
        Some(NodataText::Word(word))
    }
}

fn lower_char(c: char) -> (r: char)
    ensures
        r == crate::text::ascii_lower(c),
{
    if 'A' <= c && c <= 'Z' {
        (c as u8 + 32) as char
    } else {
        c
    }
}

/// A sample stands for no value: it is no number, or it is the number that stands for
/// none. Samples are given by their bits.
pub open spec fn nodata(val: u64, nodata: Option<u64>) -> bool {
    !crate::double::is_finite(val) || (nodata is Some && crate::double::is_finite(
        nodata->Some_0,
    ) && crate::double::equal(val, nodata->Some_0))
}

/// Tells whether a sample stands for no value.
pub fn is_nodata(val: u64, nodata: Option<u64>) -> (r: bool)
    ensures
        r == self::nodata(val, nodata),
{
    if !finite(val) {
        return true;
    }
    match nodata {
        Some(nd) => finite(nd) && is_equal(val, nd),
        None => false,
    }
}

// ─── Names of reference systems ───

/// A table of names in the order of their numbers, each number once.
pub open spec fn is_name_table(table: Seq<(u16, String)>) -> bool {
    forall|i: int, j: int|
        0 <= i < j < table.len() ==> (#[trigger] table[i]).0 < (#[trigger] table[j]).0
}

/// The table holds a name under a number.
pub open spec fn names(table: Seq<(u16, String)>, code: u16, name: Seq<char>) -> bool {
    exists|i: int|
        0 <= i < table.len() && (#[trigger] table[i]).0 == code && table[i].1@ == name
}

/// The entry of a reference system, where a JSON text has a number and a name of it, both as
/// texts.
pub open spec fn crs_entry(text: Seq<char>) -> Option<(u16, Seq<char>)> {
    match (json_text(json_at(Some(text), "code"@)), json_text(json_at(Some(text), "name"@))) {
        (Some(code), Some(name)) => match unsigned_value(code, u16::MAX as nat) {
            Some(n) => Some((n as u16, name)),
            None => None,
        },
        _ => None,
    }
}

/// The entries among JSON texts, in order.
pub open spec fn crs_entries_of(items: Seq<Seq<char>>) -> Seq<(u16, Seq<char>)>
    decreases items.len(),
{
    if items.len() == 0 {
        Seq::empty()
    } else {
        let before = crs_entries_of(items.drop_last());
        match crs_entry(items.last()) {
            Some(entry) => before.push(entry),
            None => before,
        }
    }
}

/// Entries, as values.
pub open spec fn entry_values(entries: Seq<(u16, String)>) -> Seq<(u16, Seq<char>)> {
    entries.map_values(|e: (u16, String)| (e.0, e.1@))
}

/// The entries among the items of a list, told the list.
pub fn list_entries(items: &Vec<String>) -> (entries: Vec<(u16, String)>)
    ensures
        entry_values(entries@) == crs_entries_of(texts(items@)),
{
    let ghost all = texts(items@);
    let mut entries: Vec<(u16, String)> = Vec::new();
    assert(all.take(0) =~= Seq::<Seq<char>>::empty());
    assert(entry_values(entries@) =~= Seq::<(u16, Seq<char>)>::empty());
    for i in 0..items.len()
        invariant
            all == texts(items@),
            entry_values(entries@) == crs_entries_of(all.take(i as int)),
    {
        assert(all.take(i + 1).drop_last() =~= all.take(i as int));
        assert(all.take(i + 1).last() == items@[i as int]@);
        let ghost before = entries@;
        let item: &str = items[i].as_str();
        let code: Option<String> = text_value(member_at(Some(item.to_owned()), "code"));
        let name: Option<String> = text_value(member_at(Some(item.to_owned()), "name"));
        match (code, name) {
            (Some(code), Some(name)) => match parse_unsigned(code.as_str(), 65535) {
                Some(n) => {
                    entries.push((n as u16, name));
                    assert(entry_values(entries@) =~= entry_values(before).push(
                        (n as u16, name@),
                    ));
                },
                None => {},
            },
            _ => {},
        }
    }
    assert(all.take(all.len() as int) =~= all);
    entries
}

/// The entries in a JSON text that is a list; none in any other text.
pub fn crs_entries(text: &str) -> (entries: Vec<(u16, String)>)
    ensures
        entry_values(entries@) == (match json_item(text@) {
            JsonItem::List(items) => crs_entries_of(items),
            _ => Seq::empty(),
        }),
{
    match read_json(text) {
        JsonValue::List(items) => list_entries(&items),
        _ => {
            let none: Vec<(u16, String)> = Vec::new();
            assert(entry_values(none@) =~= Seq::<(u16, Seq<char>)>::empty());
            none
        },
    }
}

/// The table holds a number.
pub open spec fn has_code(table: Seq<(u16, String)>, code: u16) -> bool {
    exists|i: int| 0 <= i < table.len() && (#[trigger] table[i]).0 == code
}

/// The table holds every entry that is the first with its number, under its name.
pub open spec fn keeps_firsts(entries: Seq<(u16, String)>, table: Seq<(u16, String)>) -> bool {
    forall|k: int|
        0 <= k < entries.len() && !has_code(entries.take(k), entries[k].0) ==> names(
            table,
            (#[trigger] entries[k]).0,
            entries[k].1@,
        )
}

/// Orders entries by their numbers. Of several with the same number the first stays.
pub fn build_name_table(entries: &Vec<(u16, String)>) -> (table: Vec<(u16, String)>)
    ensures
        is_name_table(table@),
        keeps_firsts(entries@, table@),
        forall|k: int|
            0 <= k < entries@.len() && (forall|j: int|
                0 <= j < k ==> (#[trigger] entries@[j]).0 != entries@[k].0) ==> names(
                table@,
                (#[trigger] entries@[k]).0,
                entries@[k].1@,
            ),
        forall|i: int|
            0 <= i < table@.len() ==> exists|k: int|
                0 <= k < entries@.len() && (#[trigger] entries@[k]).0 == (
                #[trigger] table@[i]).0 && entries@[k].1@ == table@[i].1@,
{
    let mut codes: Vec<u16> = Vec::new();
    for i in 0..entries.len()
        invariant
            codes@.len() == i,
            forall|j: int| 0 <= j < i ==> #[trigger] codes@[j] == entries@[j].0,
    {
        codes.push(entries[i].0);
    }
    let order: Vec<usize> = stable_order(&codes);
    let mut table: Vec<(u16, String)> = Vec::new();
    for i in 0..order.len()
        invariant
            codes@.len() == entries@.len(),
            forall|j: int|
                0 <= j < codes@.len() ==> #[trigger] codes@[j] == entries@[j].0,
            crate::order::is_stable_order(codes@, order@),
            is_name_table(table@),
            i > 0 ==> table@.len() > 0 && table@.last().0 == codes@[order@[i - 1] as int],
            i == 0 ==> table@.len() == 0,
            forall|j: int|
                0 <= j < i ==> named_by(table@, entries@, #[trigger] order@[j] as int),
            forall|t: int|
                0 <= t < table@.len() ==> exists|k: int|
                    0 <= k < entries@.len() && (#[trigger] entries@[k]).0 == (
                    #[trigger] table@[t]).0 && entries@[k].1@ == table@[t].1@,
    {
        let e: usize = order[i];
        let code: u16 = entries[e].0;
        let n: usize = table.len();
        let ghost before = table@;
        if n == 0 || table[n - 1].0 != code {
            proof {
                if i > 0 {
                    assert(crate::order::ordered_pair(
                        codes@,
                        order@[i - 1] as int,
                        order@[i as int] as int,
                    ));
                }
            }
            table.push((code, entries[e].1.as_str().to_owned()));
            proof {
                assert(table@[n as int].0 == entries@[e as int].0);
                assert forall|t: int| 0 <= t < table@.len() implies exists|k: int|
                    0 <= k < entries@.len() && (#[trigger] entries@[k]).0 == (
                    #[trigger] table@[t]).0 && entries@[k].1@ == table@[t].1@ by {
                    if t == n {
                        assert(entries@[e as int].0 == table@[t].0);
                    } else {
                        assert(before[t] == table@[t]);
                    }
                }
            }
        }
        proof {
            assert forall|j: int| 0 <= j < i + 1 implies named_by(
                table@,
                entries@,
                #[trigger] order@[j] as int,
            ) by {
                if j == i {
                    if table@.len() == n {
                        assert(codes@[order@[i - 1] as int] == codes@[e as int]);
                        assert(crate::order::ordered_pair(
                            codes@,
                            order@[i - 1] as int,
                            order@[i as int] as int,
                        ));
                        assert(order@[i - 1] < order@[i as int]);
                        assert(entries@[order@[i - 1] as int].0 == entries@[e as int].0);
                    } else {
                        assert(table@[n as int].0 == entries@[e as int].0);
                    }
                } else {
                    assert(named_by(before, entries@, order@[j] as int));
                    if names(before, entries@[order@[j] as int].0, entries@[order@[j] as int].1@) {
                        let t = choose|t: int|
                            0 <= t < before.len() && (#[trigger] before[t]).0
                                == entries@[order@[j] as int].0 && before[t].1@
                                == entries@[order@[j] as int].1@;
                        assert(table@[t] == before[t]);
                    }
                }
            }
        }
    }
    proof {
        assert forall|k: int|
            0 <= k < entries@.len() && (forall|j: int|
                0 <= j < k ==> (#[trigger] entries@[j]).0 != entries@[k].0) implies names(
            table@,
            (#[trigger] entries@[k]).0,
            entries@[k].1@,
        ) by {
            assert(order@.contains(k as usize));
            let j = choose|j: int| 0 <= j < order@.len() && order@[j] == k as usize;
            assert(named_by(table@, entries@, order@[j] as int));
        }
        assert forall|k: int|
            0 <= k < entries@.len() && !has_code(entries@.take(k), entries@[k].0) implies names(
            table@,
            (#[trigger] entries@[k]).0,
            entries@[k].1@,
        ) by {
            assert forall|j: int| 0 <= j < k implies (#[trigger] entries@[j]).0
                != entries@[k].0 by {
                assert(entries@.take(k)[j] == entries@[j]);
            }
        }
    }
    table
}

/// An entry is in the table, or an earlier entry has its number.
spec fn named_by(
    table: Seq<(u16, String)>,
    entries: Seq<(u16, String)>,
    e: int,
) -> bool {
    ||| names(table, entries[e].0, entries[e].1@)
    ||| exists|k: int| 0 <= k < e && (#[trigger] entries[k]).0 == entries[e].0
}

/// The name of the system with a number.
pub fn crs_name_from_epsg(table: &Vec<(u16, String)>, epsg: u16) -> (name: Option<String>)
    requires
        is_name_table(table@),
    ensures
        name is Some ==> names(table@, epsg, name->Some_0@),
        name is None ==> forall|i: int| 0 <= i < table@.len() ==> (#[trigger] table@[i]).0 != epsg,
        name is None ==> !has_code(table@, epsg),
{
    let mut lo: usize = 0;
    let mut hi: usize = table.len();
    while lo < hi
        invariant
            is_name_table(table@),
            lo <= hi <= table@.len(),
            forall|i: int| 0 <= i < lo ==> (#[trigger] table@[i]).0 < epsg,
            forall|i: int| hi <= i < table@.len() ==> (#[trigger] table@[i]).0 > epsg,
        decreases hi - lo,
    {
        let mid: usize = lo + (hi - lo) / 2;
        let code: u16 = table[mid].0;
        if code == epsg {
            return Some(table[mid].1.as_str().to_owned());
        } else if code < epsg {
            lo = mid + 1;
        } else {
            hi = mid;
        }
    }
    None
}

/// The number under which the keys of a raster name its system: one for projected
/// systems, one for geographic systems.
pub open spec fn model_code(info: GeoKeyInfo) -> Option<u16> {
    if info.model_type == Some(1u16) {
        info.projected_type
    } else if info.model_type == Some(2u16) {
        info.geographic_type
    } else {
        None
    }
}

/// The number under which the keys of a raster name its system.
fn code_of_model(info: &GeoKeyInfo) -> (code: Option<u16>)
    ensures
        code == model_code(*info),
{
    match info.model_type {
        Some(t) => if t == 1 {
            info.projected_type
        } else if t == 2 {
            info.geographic_type
        } else {
            None
        },
        None => None,
    }
}

/// The name of the system of a raster, where the table has one.
pub fn crs_name_from_geo_key(table: &Vec<(u16, String)>, info: &GeoKeyInfo) -> (name: Option<
    String,
>)
    requires
        is_name_table(table@),
    ensures
        model_code(*info) is None ==> name is None,
        model_code(*info) is Some ==> {
            let code = model_code(*info)->Some_0;
            &&& name is Some ==> names(table@, code, name->Some_0@)
            &&& name is None ==> forall|i: int|
                0 <= i < table@.len() ==> (#[trigger] table@[i]).0 != code
        },
{
    match code_of_model(info) {
        Some(code) => crs_name_from_epsg(table, code),
        None => None,
    }
}

/// The text for the system of a raster that has no name.
pub open spec fn plain_crs_text(info: GeoKeyInfo) -> Seq<char> {
    match model_code(info) {
        Some(code) => "EPSG:"@ + crate::numbers::decimal(code as nat),
        None => if info.model_type == Some(1u16) {
            "Projected CRS"@
        } else if info.model_type == Some(2u16) {
            "Geographic CRS"@
        } else {
            "Unknown"@
        },
    }
}

/// The text for the system of a raster: its name, or its number, or its kind.
pub fn crs_string_from_geo_key(table: &Vec<(u16, String)>, info: &GeoKeyInfo) -> (text: String)
    requires
        is_name_table(table@),
    ensures
        ({
            let code = model_code(*info);
            ||| code is Some && names(table@, code->Some_0, text@)
            ||| (code is Some ==> forall|i: int|
                0 <= i < table@.len() ==> (#[trigger] table@[i]).0 != code->Some_0) && text@
                == plain_crs_text(*info)
        }),
        model_code(*info) is Some && !has_code(table@, model_code(*info)->Some_0) ==> text@
            == plain_crs_text(*info),
        model_code(*info) is Some && has_code(table@, model_code(*info)->Some_0) ==> names(
            table@,
            model_code(*info)->Some_0,
            text@,
        ),
{
    match crs_name_from_geo_key(table, info) {
        Some(name) => {
            return name;
        },
        None => {},
    }
    match code_of_model(info) {
        Some(code) => {
            let number: String = decimal_text(code as u64);
            concat2("EPSG:", number.as_str())
        },
        None => match info.model_type {
            Some(t) => if t == 1 {
                "Projected CRS".to_owned()
            } else if t == 2 {
                "Geographic CRS".to_owned()
            } else {
                "Unknown".to_owned()
            },
            None => "Unknown".to_owned(),
        },
    }
}

// ─── What holds of samples and names ───

/// A sample stands for no value where it is not finite, or equals the finite sample for no
/// value. Both zeros are equal.
pub proof fn law_samples_without_a_value(val: u64, nodata: Option<u64>, r: bool)
    requires
        call_ensures(is_nodata, (val, nodata), r),
    ensures
        (val as int / 0x10_0000_0000_0000) % 0x800 == 0x7FF ==> r,
        (val as int / 0x10_0000_0000_0000) % 0x800 != 0x7FF && nodata is None ==> !r,
        (val as int / 0x10_0000_0000_0000) % 0x800 != 0x7FF && nodata is Some ==> (r <==> val
            == nodata->Some_0 || (val as int % 0x8000_0000_0000_0000 == 0 && nodata->Some_0 as int
            % 0x8000_0000_0000_0000 == 0)),
{
}

/// The words for samples that are no numbers, in small letters.
pub proof fn law_words_for_no_value(raw: &str, t: Option<NodataText>, word: Seq<char>)
    requires
        call_ensures(parse_nodata_string, (raw,), t),
        raw@ == word,
        word.len() > 0,
        forall|i: int| 0 <= i < word.len() ==> 33 <= (#[trigger] word[i]) as u32 <= 126,
    ensures
        t is Some,
        word == "nan"@ ==> t->Some_0 is NotANumber,
        word == "inf"@ || word == "+inf"@ || word == "infinity"@ || word == "+infinity"@
            ==> t->Some_0 is Infinity,
        word == "-inf"@ || word == "-infinity"@ ==> t->Some_0 is NegInfinity,
        forall|i: int|
            0 <= i < word.len() && '0' <= #[trigger] word[i] && word[i] <= '9' ==> (t->Some_0
                matches NodataText::Word(w) && w@ == word),
{
    lemma_clean_word(word);
    reveal_strlit("nan");
    reveal_strlit("inf");
    reveal_strlit("+inf");
    reveal_strlit("infinity");
    reveal_strlit("+infinity");
    reveal_strlit("-inf");
    reveal_strlit("-infinity");
    let l = ascii_lowered(word);
    assert("nan"@[0] == 'n' && "inf"@[0] == 'i' && "+inf"@[0] == '+' && "infinity"@[0] == 'i'
        && "+infinity"@[0] == '+' && "-inf"@[0] == '-' && "-infinity"@[0] == '-');
    if word == "nan"@ || word == "inf"@ || word == "+inf"@ || word == "infinity"@ || word
        == "+infinity"@ || word == "-inf"@ || word == "-infinity"@ {
        assert(l =~= word);
    }
    assert forall|i: int|
        0 <= i < word.len() && '0' <= #[trigger] word[i] && word[i] <= '9' implies (t->Some_0
        matches NodataText::Word(w) && w@ == word) by {
        assert(l[i] == word[i]);
        assert(l != "nan"@ && l != "inf"@ && l != "+inf"@ && l != "infinity"@ && l != "+infinity"@
            && l != "-inf"@ && l != "-infinity"@) by {
            assert(forall|k: int| 0 <= k < "nan"@.len() ==> !('0' <= "nan"@[k] && "nan"@[k] <= '9'));
            assert(forall|k: int| 0 <= k < "inf"@.len() ==> !('0' <= "inf"@[k] && "inf"@[k] <= '9'));
            assert(forall|k: int|
                0 <= k < "+inf"@.len() ==> !('0' <= "+inf"@[k] && "+inf"@[k] <= '9'));
            assert(forall|k: int|
                0 <= k < "infinity"@.len() ==> !('0' <= "infinity"@[k] && "infinity"@[k] <= '9'));
            assert(forall|k: int|
                0 <= k < "+infinity"@.len() ==> !('0' <= "+infinity"@[k] && "+infinity"@[k]
                    <= '9'));
            assert(forall|k: int|
                0 <= k < "-inf"@.len() ==> !('0' <= "-inf"@[k] && "-inf"@[k] <= '9'));
            assert(forall|k: int|
                0 <= k < "-infinity"@.len() ==> !('0' <= "-infinity"@[k] && "-infinity"@[k]
                    <= '9'));
        }
    }
}

proof fn lemma_clean_word(word: Seq<char>)
    requires
        word.len() > 0,
        forall|i: int| 0 <= i < word.len() ==> 33 <= (#[trigger] word[i]) as u32 <= 126,
    ensures
        cleaned(word) == word,
        first_word(word) == word,
{
    assert(word[0] as u32 >= 33);
    assert(word[word.len() - 1] as u32 >= 33);
    assert(!crate::text::white(word[0]));
    assert(!crate::text::white(word.last()));
    assert(crate::text::trim_spec(word) == word);
    assert(word.last() != '\0');
    assert(crate::text::trim_end_char_spec(word, '\0') == word);
    lemma_word_len(word);
    assert(word.take(word.len() as int) =~= word);
}

proof fn lemma_word_len(word: Seq<char>)
    requires
        forall|i: int| 0 <= i < word.len() ==> 33 <= (#[trigger] word[i]) as u32 <= 126,
    ensures
        word_len(word) == word.len(),
    decreases word.len(),
{
    if word.len() > 0 {
        let t = word.drop_first();
        assert forall|i: int| 0 <= i < t.len() implies 33 <= (#[trigger] t[i]) as u32 <= 126 by {
            assert(t[i] == word[i + 1]);
        }
        lemma_word_len(t);
        assert(word[0] as u32 >= 33);
    }
}

/// The table of names is ordered by numbers, each number once; the first entry of each number
/// is in it, with its name, and nothing else.
pub proof fn law_table_keeps_first_names(
    entries: &Vec<(u16, String)>,
    table: Vec<(u16, String)>,
    k: int,
)
    requires
        call_ensures(build_name_table, (entries,), table),
        0 <= k < entries@.len(),
        forall|j: int| 0 <= j < k ==> (#[trigger] entries@[j]).0 != entries@[k].0,
    ensures
        forall|i: int, j: int|
            0 <= i < j < table@.len() ==> (#[trigger] table@[i]).0 < (#[trigger] table@[j]).0,
        exists|i: int|
            0 <= i < table@.len() && (#[trigger] table@[i]).0 == entries@[k].0 && table@[i].1@
                == entries@[k].1@,
{
    assert(!has_code(entries@.take(k), entries@[k].0));
    assert(names(table@, entries@[k].0, entries@[k].1@));
}

/// The name of a system is the one that the table has under its number, and there is none
/// where the table has none.
pub proof fn law_names_come_from_the_table(
    table: &Vec<(u16, String)>,
    epsg: u16,
    name: Option<String>,
)
    requires
        call_ensures(crs_name_from_epsg, (table, epsg), name),
    ensures
        name is Some ==> exists|i: int|
            0 <= i < table@.len() && (#[trigger] table@[i]).0 == epsg && table@[i].1@
                == name->Some_0@,
        name is None ==> forall|i: int| 0 <= i < table@.len() ==> (#[trigger] table@[i]).0 != epsg,
{
    assert forall|i: int| name is None && 0 <= i < table@.len() implies (#[trigger] table@[i]).0
        != epsg by {
        assert(!has_code(table@, epsg));
    }
}

/// The text for the system of a raster: of a projected one by its projected number, of a
/// geographic one by its geographic number. A number without a name is written out, and a
/// system without a number is told by its kind.
pub proof fn law_texts_for_systems(
    table: &Vec<(u16, String)>,
    info: &GeoKeyInfo,
    text: String,
    code: u16,
)
    requires
        call_ensures(crs_string_from_geo_key, (table, info), text),
    ensures
        (info.model_type == Some(1u16) && info.projected_type == Some(code)) || (info.model_type
            == Some(2u16) && info.geographic_type == Some(code)) ==> {
            ||| exists|i: int|
                0 <= i < table@.len() && (#[trigger] table@[i]).0 == code && table@[i].1@ == text@
            ||| (forall|i: int| 0 <= i < table@.len() ==> (#[trigger] table@[i]).0 != code) && text@
                == "EPSG:"@ + crate::numbers::decimal(code as nat)
        },
        info.model_type == Some(1u16) && info.projected_type is None ==> text@ == "Projected CRS"@,
        info.model_type == Some(2u16) && info.geographic_type is None ==> text@
            == "Geographic CRS"@,
        info.model_type != Some(1u16) && info.model_type != Some(2u16) ==> text@ == "Unknown"@,
{
    if model_code(*info) == Some(code) {
        if !has_code(table@, code) {
            assert forall|i: int| 0 <= i < table@.len() implies (#[trigger] table@[i]).0
                != code by {}
        }
    }
}

proof fn lemma_entries(items: Seq<Seq<char>>) -> (places: Seq<int>)
    ensures
        places.len() == crs_entries_of(items).len(),
        forall|k: int|
            0 <= k < places.len() ==> 0 <= #[trigger] places[k] < items.len() && crs_entry(
                items[places[k]],
            ) == Some(crs_entries_of(items)[k]),
        forall|j: int, k: int| 0 <= j < k < places.len() ==> places[j] < places[k],
        forall|i: int|
            0 <= i < items.len() && crs_entry(#[trigger] items[i]) is Some ==> places.contains(i),
    decreases items.len(),
{
    if items.len() == 0 {
        Seq::empty()
    } else {
        let n = items.len() - 1;
        let before = lemma_entries(items.drop_last());
        let places = if crs_entry(items.last()) is Some {
            before.push(n)
        } else {
            before
        };
        assert forall|k: int| 0 <= k < places.len() implies 0 <= #[trigger] places[k]
            < items.len() && crs_entry(items[places[k]]) == Some(crs_entries_of(items)[k]) by {
            if k < before.len() {
                assert(places[k] == before[k]);
                assert(items.drop_last()[before[k]] == items[before[k]]);
            }
        }
        assert forall|j: int, k: int| 0 <= j < k < places.len() implies places[j] < places[k] by {
            assert(places[j] == before[j]);
            if k < before.len() {
                assert(places[k] == before[k]);
            }
        }
        assert forall|i: int| 0 <= i < items.len() && crs_entry(
            #[trigger] items[i],
        ) is Some implies places.contains(i) by {
            if i < n {
                assert(items.drop_last()[i] == items[i]);
                assert(before.contains(i));
                let k = choose|k: int| 0 <= k < before.len() && before[k] == i;
                assert(places[k] == i);
            } else {
                assert(places[before.len() as int] == n);
            }
        }
        places
    }
}

/// An item of a list names a system where its members `code` and `name` are texts, and the
/// first of them is a number of sixteen bits.
pub open spec fn tells_system(item: Seq<char>, code: u16, name: Seq<char>) -> bool {
    &&& json_text(json_at(Some(item), "name"@)) == Some(name)
    &&& json_text(json_at(Some(item), "code"@)) is Some
    &&& unsigned_value(json_text(json_at(Some(item), "code"@))->Some_0, 65535) == Some(code as nat)
}

/// The entries of a list are its items that name a system, in order, each with its number and
/// its name, and no item that does is left out.
pub proof fn law_entries_are_items(items: &Vec<String>, entries: Vec<(u16, String)>)
    requires
        call_ensures(list_entries, (items,), entries),
    ensures
        exists|places: Seq<int>|
            #![trigger places.len()]
            {
                &&& places.len() == entries@.len()
                &&& forall|k: int|
                    0 <= k < places.len() ==> 0 <= #[trigger] places[k] < items@.len()
                        && tells_system(items@[places[k]]@, entries@[k].0, entries@[k].1@)
                &&& forall|j: int, k: int| 0 <= j < k < places.len() ==> places[j] < places[k]
                &&& forall|i: int, code: u16, name: Seq<char>|
                    0 <= i < items@.len() && #[trigger] tells_system(items@[i]@, code, name)
                        ==> places.contains(i)
            },
{
    let all = texts(items@);
    let places = lemma_entries(all);
    let found = crs_entries_of(all);
    assert forall|k: int| 0 <= k < places.len() implies 0 <= #[trigger] places[k] < items@.len()
        && tells_system(items@[places[k]]@, entries@[k].0, entries@[k].1@) by {
        assert(entry_values(entries@)[k] == found[k]);
        assert(all[places[k]] == items@[places[k]]@);
        assert(crs_entry(all[places[k]]) == Some(found[k]));
    }
    assert forall|i: int, code: u16, name: Seq<char>|
        0 <= i < items@.len() && #[trigger] tells_system(
            items@[i]@,
            code,
            name,
        ) implies places.contains(i) by {
        assert(all[i] == items@[i]@);
        assert(crs_entry(all[i]) is Some);
    }
}

} // verus!
