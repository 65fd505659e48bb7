//! Tests of vector data that come before it is read: how deep it is nested, and whether
//! its elements are complete.

use crate::text::{chars_of, str_eq};
use crate::xml::{pieces, XmlPiece, XmlToken};
use vstd::prelude::*;

verus! {

/// How many round brackets may be open in a text. The reader calls itself for each, on the
/// stack of a thread, and a geometry that is nested no deeper can be written as JSON and
/// read again.
pub const MAX_BRACKETS: usize = 60;

/// How deep the elements of a document may be nested. The reader calls itself for each, on
/// the stack of a thread.
pub const MAX_ELEMENTS: usize = 40;

// ─── Brackets ───

/// How many round brackets are open at the end of a text.
pub open spec fn open_brackets(text: Seq<char>) -> nat
    decreases text.len(),
{
    if text.len() == 0 {
        0
    } else {
        let before = open_brackets(text.drop_last());
        if text.last() == '(' {
            before + 1
        } else if text.last() == ')' && before > 0 {
            (before - 1) as nat
        } else {
            before
        }
    }
}

/// Nowhere in a text are more round brackets open than may be.
pub open spec fn brackets_are_shallow(text: Seq<char>) -> bool {
    forall|n: int| 0 <= n <= text.len() ==> open_brackets(#[trigger] text.take(n)) <= MAX_BRACKETS
}

/// Whether nowhere in a text more round brackets are open than may be.
pub fn has_shallow_brackets(text: &str) -> (r: bool)
    ensures
        r == brackets_are_shallow(text@),
{
    let v: Vec<char> = chars_of(text);
    let mut open: usize = 0;
    assert(v@.take(0) =~= Seq::<char>::empty());
    for i in 0..v.len()
        invariant
            v@ == text@,
            open == open_brackets(v@.take(i as int)),
            open <= MAX_BRACKETS,
            forall|n: int| 0 <= n <= i ==> open_brackets(#[trigger] v@.take(n)) <= MAX_BRACKETS,
    {
        assert(v@.take(i + 1).drop_last() =~= v@.take(i as int));
        assert(v@.take(i + 1).last() == v@[i as int]);
        if v[i] == '(' {
            open += 1;
        } else if v[i] == ')' && open > 0 {
            open -= 1;
        }
        if open > MAX_BRACKETS {
            assert(open_brackets(text@.take(i + 1)) > MAX_BRACKETS);
            return false;
        }
    }
    true
}

// ─── Elements ───

/// How deep the reader of places stands behind pieces of a document. It leaves an element
/// at its end, but for the outermost one, `kml`, of which it does not look for the end.
pub open spec fn reading_depth(pieces: Seq<XmlPiece>) -> nat
    decreases pieces.len(),
{
    if pieces.len() == 0 {
        0
    } else {
        let before = reading_depth(pieces.drop_last());
        match pieces.last() {
            XmlPiece::Open(_) => before + 1,
            XmlPiece::Close(name) => if name != "kml"@ && before > 0 {
                (before - 1) as nat
            } else {
                before
            },
            _ => before,
        }
    }
}

/// Nowhere in a document the reader of places stands deeper than it may.
pub open spec fn elements_are_shallow(pieces: Seq<XmlPiece>) -> bool {
    forall|n: int|
        0 <= n <= pieces.len() ==> reading_depth(#[trigger] pieces.take(n)) <= MAX_ELEMENTS
}

/// The elements of which the reader of places looks for the end beyond the end of the
/// document.
pub open spec fn needs_end(name: Seq<char>) -> bool {
    ||| name == "Placemark"@
    ||| name == "Point"@
    ||| name == "LineString"@
    ||| name == "LinearRing"@
    ||| name == "Data"@
    ||| name == "SchemaData"@
}

/// How many elements that need an end have none in pieces of a document.
pub open spec fn without_end(pieces: Seq<XmlPiece>) -> nat
    decreases pieces.len(),
{
    if pieces.len() == 0 {
        0
    } else {
        let before = without_end(pieces.drop_last());
        match pieces.last() {
            XmlPiece::Open(name) => if needs_end(name) {
                before + 1
            } else {
                before
            },
            XmlPiece::Close(name) => if needs_end(name) && before > 0 {
                (before - 1) as nat
            } else {
                before
            },
            _ => before,
        }
    }
}

/// The elements in which the reader of places goes on after what cannot be read.
pub open spec fn hides_breaks(name: Seq<char>) -> bool {
    ||| name == "Data"@
    ||| name == "SchemaData"@
    ||| name == "ResourceMap"@
}

/// A document has an element in which the reader of places goes on after what cannot be
/// read.
pub open spec fn may_hide_breaks(pieces: Seq<XmlPiece>) -> bool {
    exists|i: int|
        0 <= i < pieces.len() && (#[trigger] pieces[i] matches XmlPiece::Open(name)
            && hides_breaks(name))
}

/// A text holds a letter or a digit, as every number does.
pub open spec fn has_sign(text: Seq<char>) -> bool {
    exists|i: int| 0 <= i < text.len() && is_sign(#[trigger] text[i])
}

/// A letter or a digit.
pub open spec fn is_sign(c: char) -> bool {
    ||| '0' <= c <= '9'
    ||| 'a' <= c <= 'z'
    ||| 'A' <= c <= 'Z'
}

/// Whether the coordinates of a point are being read, and whether the last that were read
/// hold anything.
pub struct Coordinates {
    pub reading: bool,
    pub found: bool,
}

/// The coordinates of the point at the end of pieces of a document.
pub open spec fn coordinates(pieces: Seq<XmlPiece>) -> Coordinates
    decreases pieces.len(),
{
    if pieces.len() == 0 {
        Coordinates { reading: false, found: false }
    } else {
        let before = coordinates(pieces.drop_last());
        match pieces.last() {
            XmlPiece::Open(name) => Coordinates {
                reading: name == "coordinates"@,
                found: before.found && name != "coordinates"@ && name != "Point"@,
            },
            XmlPiece::Close(_) => Coordinates { reading: false, ..before },
            XmlPiece::Text(text) => Coordinates {
                found: before.found || (before.reading && has_sign(text)),
                ..before
            },
            _ => before,
        }
    }
}

/// Each point of a document has coordinates.
pub open spec fn points_are_placed(pieces: Seq<XmlPiece>) -> bool {
    forall|i: int|
        0 <= i < pieces.len() && #[trigger] pieces[i] == XmlPiece::Close("Point"@)
            ==> coordinates(pieces.take(i)).found
}

/// Why the reader of places cannot be given a document, if so: it would run out of stack,
/// stop the program, or wait for an end that never comes. Elements count wherever they
/// stand, also inside of unknown ones.
pub open spec fn document_fault(pieces: Seq<XmlPiece>) -> Option<Seq<char>> {
    if !elements_are_shallow(pieces) {
        Some("elements are nested too deep"@)
    } else if !points_are_placed(pieces) {
        Some("a point has no coordinates"@)
    } else if pieces.len() > 0 && pieces.last() == XmlPiece::Broken && may_hide_breaks(pieces) {
        Some("the document cannot be read on"@)
    } else if pieces.len() > 0 && pieces.last() == XmlPiece::End && without_end(pieces) > 0 {
        Some("an element has no end"@)
    } else {
        None
    }
}

fn text_has_sign(text: &str) -> (r: bool)
    ensures
        r == has_sign(text@),
{
    let v: Vec<char> = chars_of(text);
    for i in 0..v.len()
        invariant
            v@ == text@,
            forall|k: int| 0 <= k < i ==> !is_sign(#[trigger] text@[k]),
    {
        let c: char = v[i];
        if ('0' <= c && c <= '9') || ('a' <= c && c <= 'z') || ('A' <= c && c <= 'Z') {
            assert(is_sign(text@[i as int]));
            return true;
        }
    }
    false
}

fn element_needs_end(name: &str) -> (r: bool)
    ensures
        r == needs_end(name@),
{
    str_eq(name, "Placemark") || str_eq(name, "Point") || str_eq(name, "LineString") || str_eq(
        name,
        "LinearRing",
    ) || str_eq(name, "Data") || str_eq(name, "SchemaData")
}

fn element_hides_breaks(name: &str) -> (r: bool)
    ensures
        r == hides_breaks(name@),
{
    str_eq(name, "Data") || str_eq(name, "SchemaData") || str_eq(name, "ResourceMap")
}

/// Why the reader of places cannot be given a document, if so.
pub fn find_fault(tokens: &Vec<XmlToken>) -> (fault: Option<String>)
    ensures
        crate::text::text_of(fault) == document_fault(pieces(tokens@)),
{
    let ghost all = pieces(tokens@);
    let mut depth: usize = 0;
    let mut endless: usize = 0;
    let mut hides: bool = false;
    let mut reading: bool = false;
    let mut found: bool = false;
    let mut shallow: bool = true;
    let mut placed: bool = true;
    let mut broken: bool = false;
    let mut ended: bool = false;
    assert(all.take(0) =~= Seq::<XmlPiece>::empty());
    for i in 0..tokens.len()
        invariant
            all == pieces(tokens@),
            depth == reading_depth(all.take(i as int)),
            depth <= i,
            endless == without_end(all.take(i as int)),
            endless <= i,
            hides == may_hide_breaks(all.take(i as int)),
            coordinates(all.take(i as int)) == (Coordinates { reading, found }),
            shallow == forall|n: int|
                0 <= n <= i ==> reading_depth(#[trigger] all.take(n)) <= MAX_ELEMENTS,
            placed == forall|n: int|
                0 <= n < i && #[trigger] all[n] == XmlPiece::Close("Point"@) ==> coordinates(
                    all.take(n),
                ).found,
            broken == (i > 0 && all[i - 1] == XmlPiece::Broken),
            ended == (i > 0 && all[i - 1] == XmlPiece::End),
    {
        let ghost before = all.take(i as int);
        let ghost after = all.take(i + 1);
        assert(after.drop_last() =~= before);
        assert(after.last() == tokens@[i as int]@);
        assert(all[i as int] == tokens@[i as int]@);
        assert forall|n: int| 0 <= n < i implies after[n] == #[trigger] before[n] by {}
        broken = false;
        ended = false;
        match &tokens[i] {
            XmlToken::Open(name) => {
                depth += 1;
                if element_needs_end(name.as_str()) {
                    endless += 1;
                }
                if element_hides_breaks(name.as_str()) {
                    hides = true;
                    assert(after[i as int] matches XmlPiece::Open(n) && hides_breaks(n));
                }
                reading = str_eq(name.as_str(), "coordinates");
                found = found && !reading && !str_eq(name.as_str(), "Point");
            },
            XmlToken::Close(name) => {
                if !str_eq(name.as_str(), "kml") && depth > 0 {
                    depth -= 1;
                }
                if element_needs_end(name.as_str()) && endless > 0 {
                    endless -= 1;
                }
                if str_eq(name.as_str(), "Point") && !found {
                    placed = false;
                }
                reading = false;
            },
            XmlToken::Text(text) => {
                found = found || (reading && text_has_sign(text.as_str()));
            },
            XmlToken::Other => {},
            XmlToken::End => {
                ended = true;
            },
            XmlToken::Broken => {
                broken = true;
            },
        }
        if depth > MAX_ELEMENTS {
            shallow = false;
        }
    }
    assert(all.take(all.len() as int) =~= all);
    if !shallow {
        Some("elements are nested too deep".to_owned())
    } else if !placed {
        Some("a point has no coordinates".to_owned())
    } else if broken && hides {
        Some("the document cannot be read on".to_owned())
    } else if ended && endless > 0 {
        Some("an element has no end".to_owned())
    } else {
        None
    }
}

// ─── What holds of the tests ───

/// Each opening bracket opens one more, each closing bracket closes one where one is open, and
/// nothing else changes their number. A text is shallow where never more than sixty are open.
pub proof fn law_brackets_open_and_close(text: Seq<char>, c: char)
    ensures
        open_brackets(Seq::<char>::empty()) == 0,
        open_brackets(text.push('(')) == open_brackets(text) + 1,
        open_brackets(text) > 0 ==> open_brackets(text.push(')')) == open_brackets(text) - 1,
        open_brackets(text) == 0 ==> open_brackets(text.push(')')) == 0,
        c != '(' && c != ')' ==> open_brackets(text.push(c)) == open_brackets(text),
        brackets_are_shallow(text.push(c)) <==> brackets_are_shallow(text) && open_brackets(
            text.push(c),
        ) <= 60,
        brackets_are_shallow(Seq::<char>::empty()),
{
    assert(text.push('(').drop_last() =~= text);
    assert(text.push(')').drop_last() =~= text);
    assert(text.push(c).drop_last() =~= text);
    let all = text.push(c);
    let n = text.len() as int;
    assert forall|k: int| 0 <= k <= n implies #[trigger] all.take(k) == text.take(k) by {
        assert(all.take(k) =~= text.take(k));
    }
    assert(all.take(n + 1) =~= all);
    if brackets_are_shallow(all) {
        assert forall|k: int| 0 <= k <= text.len() implies open_brackets(#[trigger] text.take(k))
            <= MAX_BRACKETS by {
            assert(all.take(k) == text.take(k));
        }
    }
    if brackets_are_shallow(text) && open_brackets(all) <= 60 {
        assert forall|k: int| 0 <= k <= all.len() implies open_brackets(#[trigger] all.take(k))
            <= MAX_BRACKETS by {
            if k <= n {
                assert(all.take(k) == text.take(k));
            }
        }
    }
    assert(Seq::<char>::empty().take(0) =~= Seq::<char>::empty());
    assert forall|k: int| 0 <= k <= 0 implies open_brackets(
        #[trigger] Seq::<char>::empty().take(k),
    ) <= MAX_BRACKETS by {
        assert(Seq::<char>::empty().take(k) =~= Seq::<char>::empty());
    }
}

/// A text is told to be shallow where it is.
pub proof fn law_shallow_texts(text: &str, r: bool)
    requires
        call_ensures(has_shallow_brackets, (text,), r),
    ensures
        r <==> forall|n: int|
            0 <= n <= text@.len() ==> open_brackets(#[trigger] text@.take(n)) <= 60,
{
}

/// The reader stands one deeper in an element that starts, and leaves it at its end, unless it is
/// the outermost one. Elements of which the reader looks for the end are counted likewise.
pub proof fn law_elements_open_and_close(pieces: Seq<XmlPiece>, name: Seq<char>)
    ensures
        reading_depth(Seq::<XmlPiece>::empty()) == 0,
        reading_depth(pieces.push(XmlPiece::Open(name))) == reading_depth(pieces) + 1,
        name != "kml"@ && reading_depth(pieces) > 0 ==> reading_depth(
            pieces.push(XmlPiece::Close(name)),
        ) == reading_depth(pieces) - 1,
        name == "kml"@ ==> reading_depth(pieces.push(XmlPiece::Close(name))) == reading_depth(
            pieces,
        ),
        without_end(Seq::<XmlPiece>::empty()) == 0,
        name == "Placemark"@ || name == "Point"@ || name == "LineString"@ || name == "LinearRing"@
            || name == "Data"@ || name == "SchemaData"@ ==> without_end(
            pieces.push(XmlPiece::Open(name)),
        ) == without_end(pieces) + 1 && (without_end(pieces) > 0 ==> without_end(
            pieces.push(XmlPiece::Close(name)),
        ) == without_end(pieces) - 1),
        !(name == "Placemark"@ || name == "Point"@ || name == "LineString"@ || name
            == "LinearRing"@ || name == "Data"@ || name == "SchemaData"@) ==> without_end(
            pieces.push(XmlPiece::Open(name)),
        ) == without_end(pieces) && without_end(pieces.push(XmlPiece::Close(name)))
            == without_end(pieces),
        hides_breaks(name) <==> name == "Data"@ || name == "SchemaData"@ || name == "ResourceMap"@,
{
    assert(pieces.push(XmlPiece::Open(name)).drop_last() =~= pieces);
    assert(pieces.push(XmlPiece::Close(name)).drop_last() =~= pieces);
}

/// A document is given to the reader only where it never stands deeper than forty, and every
/// point has coordinates before its end. A document that ends has an end for each element that
/// needs one, and one that breaks off has no element in which the reader goes on.
pub proof fn law_faults_of_documents(tokens: &Vec<XmlToken>, fault: Option<String>)
    requires
        call_ensures(find_fault, (tokens,), fault),
        fault is None,
    ensures
        forall|n: int|
            0 <= n <= tokens@.len() ==> reading_depth(#[trigger] pieces(tokens@).take(n)) <= 40,
        forall|i: int|
            0 <= i < tokens@.len() && #[trigger] pieces(tokens@)[i] == XmlPiece::Close("Point"@)
                ==> coordinates(pieces(tokens@).take(i)).found,
        tokens@.len() > 0 && tokens@.last() is End ==> without_end(pieces(tokens@)) == 0,
        tokens@.len() > 0 && tokens@.last() is Broken ==> forall|i: int|
            0 <= i < tokens@.len() ==> !(#[trigger] pieces(tokens@)[i] matches XmlPiece::Open(name)
                && hides_breaks(name)),
{
    let all = pieces(tokens@);
    if tokens@.len() > 0 {
        assert(all.last() == tokens@.last()@);
    }
}

/// A point has coordinates once a text with a letter or a digit stands in them, until other
/// coordinates or another point start.
pub proof fn law_coordinates_of_points(pieces: Seq<XmlPiece>, text: Seq<char>, i: int)
    requires
        0 <= i < text.len(),
        '0' <= text[i] && text[i] <= '9',
    ensures
        !coordinates(Seq::<XmlPiece>::empty()).found,
        coordinates(pieces.push(XmlPiece::Open("coordinates"@))).reading,
        !coordinates(pieces.push(XmlPiece::Open("coordinates"@))).found,
        !coordinates(pieces.push(XmlPiece::Open("Point"@))).found,
        coordinates(
            pieces.push(XmlPiece::Open("coordinates"@)).push(XmlPiece::Text(text)),
        ).found,
{
    let a = pieces.push(XmlPiece::Open("coordinates"@));
    assert(a.drop_last() =~= pieces);
    assert(pieces.push(XmlPiece::Open("Point"@)).drop_last() =~= pieces);
    assert(a.push(XmlPiece::Text(text)).drop_last() =~= a);
    assert(is_sign(text[i]));
    assert(has_sign(text));
}

/// A document whose elements are nested too deep is told so, else one with a point without
/// coordinates, else one that breaks off where a break may be hidden, else one with an element
/// without end; a document without any of these has no fault.
pub proof fn law_faults_are_told(tokens: &Vec<XmlToken>, fault: Option<String>)
    requires
        call_ensures(find_fault, (tokens,), fault),
    ensures
        ({
            let all = pieces(tokens@);
            let deep = exists|n: int|
                0 <= n <= all.len() && reading_depth(#[trigger] all.take(n)) > 40;
            let placed = forall|i: int|
                0 <= i < all.len() && #[trigger] all[i] == XmlPiece::Close("Point"@)
                    ==> coordinates(all.take(i)).found;
            let breaks = tokens@.len() > 0 && tokens@.last() is Broken && exists|i: int|
                0 <= i < all.len() && (#[trigger] all[i] matches XmlPiece::Open(name)
                    && hides_breaks(name));
            let ends = tokens@.len() > 0 && tokens@.last() is End && without_end(all) > 0;
            &&& deep ==> fault is Some && fault->Some_0@ == "elements are nested too deep"@
            &&& !deep && !placed ==> fault is Some && fault->Some_0@
                == "a point has no coordinates"@
            &&& !deep && placed && breaks ==> fault is Some && fault->Some_0@
                == "the document cannot be read on"@
            &&& !deep && placed && !breaks && ends ==> fault is Some && fault->Some_0@
                == "an element has no end"@
            &&& !deep && placed && !breaks && !ends ==> fault is None
        }),
{
    let all = pieces(tokens@);
    if tokens@.len() > 0 {
        assert(all.last() == tokens@.last()@);
    }
    if exists|n: int| 0 <= n <= all.len() && reading_depth(#[trigger] all.take(n)) > 40 {
        let n = choose|n: int| 0 <= n <= all.len() && reading_depth(#[trigger] all.take(n)) > 40;
        assert(!elements_are_shallow(all));
    } else {
        assert(elements_are_shallow(all));
    }
}

} // verus!
