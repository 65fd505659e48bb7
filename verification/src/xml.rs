//! XML documents: their parts, and their text.

use quick_xml::events::{BytesDecl, BytesEnd, BytesStart, BytesText, Event};
use quick_xml::{Reader, Writer};
use vstd::prelude::*;

verus! {

// ─── Parts of a document ───

/// A part of a document, as a value.
pub enum XmlItem {
    /// The declaration: the version and the encoding.
    Decl(Seq<char>, Seq<char>),
    /// The start of an element: its name and its attributes.
    Start(Seq<char>, Seq<(Seq<char>, Seq<char>)>),
    /// An element without contents.
    Empty(Seq<char>, Seq<(Seq<char>, Seq<char>)>),
    Text(Seq<char>),
    /// The end of an element.
    End(Seq<char>),
}

/// The names and values of attributes.
pub type Attrs = Vec<(String, String)>;

/// Attributes as values.
pub open spec fn attrs_view(attrs: Seq<(String, String)>) -> Seq<(Seq<char>, Seq<char>)> {
    attrs.map_values(|a: (String, String)| (a.0@, a.1@))
}

/// A part of a document.
pub enum XmlEvent {
    Decl(String, String),
    Start(String, Attrs),
    Empty(String, Attrs),
    Text(String),
    End(String),
}

impl View for XmlEvent {
    type V = XmlItem;

    open spec fn view(&self) -> XmlItem {
        match self {
            XmlEvent::Decl(version, encoding) => XmlItem::Decl(version@, encoding@),
            XmlEvent::Start(name, attrs) => XmlItem::Start(name@, attrs_view(attrs@)),
            XmlEvent::Empty(name, attrs) => XmlItem::Empty(name@, attrs_view(attrs@)),
            XmlEvent::Text(text) => XmlItem::Text(text@),
            XmlEvent::End(name) => XmlItem::End(name@),
        }
    }
}

/// Parts as values.
pub open spec fn items(events: Seq<XmlEvent>) -> Seq<XmlItem> {
    events.map_values(|e: XmlEvent| e@)
}

/// An element around other parts.
pub open spec fn element(
    name: Seq<char>,
    attrs: Seq<(Seq<char>, Seq<char>)>,
    inner: Seq<XmlItem>,
) -> Seq<XmlItem> {
    seq![XmlItem::Start(name, attrs)] + inner + seq![XmlItem::End(name)]
}

/// An element around a text.
pub open spec fn text_element(name: Seq<char>, text: Seq<char>) -> Seq<XmlItem> {
    element(name, Seq::empty(), seq![XmlItem::Text(text)])
}

/// An element without contents.
pub open spec fn empty_element(name: Seq<char>, attrs: Seq<(Seq<char>, Seq<char>)>) -> Seq<
    XmlItem,
> {
    seq![XmlItem::Empty(name, attrs)]
}

/// No attributes.
pub fn no_attrs() -> (attrs: Attrs)
    ensures
        attrs_view(attrs@) == Seq::<(Seq<char>, Seq<char>)>::empty(),
{
    let attrs: Attrs = Vec::new();
    assert(attrs_view(attrs@) =~= Seq::<(Seq<char>, Seq<char>)>::empty());
    attrs
}

/// Attributes and one more.
pub fn with_attr(attrs: Attrs, name: &str, value: &str) -> (r: Attrs)
    ensures
        attrs_view(r@) == attrs_view(attrs@).push((name@, value@)),
{
    let mut r: Attrs = attrs;
    r.push((name.to_owned(), value.to_owned()));
    assert(attrs_view(r@) =~= attrs_view(attrs@).push((name@, value@)));
    r
}

/// An element around other parts.
pub fn elem(name: &str, attrs: Attrs, inner: Vec<XmlEvent>) -> (r: Vec<XmlEvent>)
    ensures
        items(r@) == element(name@, attrs_view(attrs@), items(inner@)),
{
    let mut r: Vec<XmlEvent> = Vec::new();
    let mut inner: Vec<XmlEvent> = inner;
    let ghost parts = inner@;
    r.push(XmlEvent::Start(name.to_owned(), attrs));
    r.append(&mut inner);
    r.push(XmlEvent::End(name.to_owned()));
    assert(items(r@) =~= element(name@, attrs_view(attrs@), items(parts)));
    r
}

/// An element around a text.
pub fn leaf(name: &str, text: &str) -> (r: Vec<XmlEvent>)
    ensures
        items(r@) == text_element(name@, text@),
{
    let mut inner: Vec<XmlEvent> = Vec::new();
    inner.push(XmlEvent::Text(text.to_owned()));
    assert(items(inner@) =~= seq![XmlItem::Text(text@)]);
    elem(name, no_attrs(), inner)
}

/// An element without contents.
pub fn write_empty(name: &str, attrs: Attrs) -> (r: Vec<XmlEvent>)
    ensures
        items(r@) == empty_element(name@, attrs_view(attrs@)),
{
    let mut r: Vec<XmlEvent> = Vec::new();
    r.push(XmlEvent::Empty(name.to_owned(), attrs));
    assert(items(r@) =~= empty_element(name@, attrs_view(attrs@)));
    r
}

/// Parts and more parts.
pub fn join(a: Vec<XmlEvent>, b: Vec<XmlEvent>) -> (r: Vec<XmlEvent>)
    ensures
        items(r@) == items(a@) + items(b@),
{
    let mut r: Vec<XmlEvent> = a;
    let mut b: Vec<XmlEvent> = b;
    let ghost tail = b@;
    r.append(&mut b);
    assert(items(r@) =~= items(a@) + items(tail));
    r
}

// ─── The text of a document ───

/// A character in the text of an element or in the value of an attribute.
pub open spec fn escaped_char(c: char) -> Seq<char> {
    if c == '<' {
        "&lt;"@
    } else if c == '>' {
        "&gt;"@
    } else if c == '&' {
        "&amp;"@
    } else if c == '\'' {
        "&apos;"@
    } else if c == '"' {
        "&quot;"@
    } else {
        seq![c]
    }
}

/// The text of an element, or the value of an attribute.
pub open spec fn escaped(s: Seq<char>) -> Seq<char>
    decreases s.len(),
{
    if s.len() == 0 {
        Seq::empty()
    } else {
        escaped(s.drop_last()) + escaped_char(s.last())
    }
}

/// The text of attributes.
pub open spec fn attrs_text(attrs: Seq<(Seq<char>, Seq<char>)>) -> Seq<char>
    decreases attrs.len(),
{
    if attrs.len() == 0 {
        Seq::empty()
    } else {
        attrs_text(attrs.drop_last()) + seq![' '] + attrs.last().0 + seq!['=', '"'] + escaped(
            attrs.last().1,
        ) + seq!['"']
    }
}

/// A document while it is written: its text, how far its elements are moved in, and
/// whether the next part starts a line.
pub struct Written {
    pub text: Seq<char>,
    pub indent: nat,
    pub breaks: bool,
}

/// What stands before a part that is moved in.
pub open spec fn lead(breaks: bool, indent: nat) -> Seq<char> {
    if breaks {
        seq!['\n'] + Seq::new(indent, |i: int| ' ')
    } else {
        Seq::empty()
    }
}

/// A document after one more part, where elements are moved in by `step` spaces.
pub open spec fn with_item(w: Written, item: XmlItem, step: nat) -> Written {
    match item {
        XmlItem::Decl(version, encoding) => Written {
            text: w.text + lead(w.breaks, w.indent) + "<?xml version=\""@ + version
                + "\" encoding=\""@ + encoding + "\"?>"@,
            breaks: true,
            ..w
        },
        XmlItem::Start(name, attrs) => Written {
            text: w.text + lead(w.breaks, w.indent) + "<"@ + name + attrs_text(attrs) + ">"@,
            indent: w.indent + step,
            breaks: true,
        },
        XmlItem::Empty(name, attrs) => Written {
            text: w.text + lead(w.breaks, w.indent) + "<"@ + name + attrs_text(attrs) + "/>"@,
            breaks: true,
            ..w
        },
        XmlItem::Text(text) => Written { text: w.text + escaped(text), breaks: false, ..w },
        XmlItem::End(name) => {
            let indent = if w.indent >= step {
                (w.indent - step) as nat
            } else {
                0
            };
            Written {
                text: w.text + lead(w.breaks, indent) + "</"@ + name + ">"@,
                indent,
                breaks: true,
            }
        },
    }
}

/// A document that was written from its parts.
pub open spec fn written(items: Seq<XmlItem>, step: nat) -> Written
    decreases items.len(),
{
    if items.len() == 0 {
        Written { text: Seq::empty(), indent: 0, breaks: false }
    } else {
        with_item(written(items.drop_last(), step), items.last(), step)
    }
}

/// The text of a document.
pub open spec fn document_text(items: Seq<XmlItem>, step: nat) -> Seq<char> {
    written(items, step).text
}

/// The writer of documents.
#[verifier::external_type_specification]
#[verifier::external_body]
#[verifier::reject_recursive_types(W)]
pub struct ExWriter<W>(Writer<W>);

/// The parts that a writer has written.
pub uninterp spec fn writer_items(writer: Writer<Vec<u8>>) -> Seq<XmlItem>;

/// The spaces by which a writer moves elements in.
pub uninterp spec fn writer_step(writer: Writer<Vec<u8>>) -> nat;

/// Calls `quick_xml::Writer::new_with_indent` on an empty buffer, with the space as the
/// character that moves elements in. Claims that nothing is written yet. A wide step is
/// left out: the writer keeps as many spaces as its elements are moved in.
#[verifier::external_body]
fn new_writer(step: usize) -> (writer: Writer<Vec<u8>>)
    requires
        step <= 8,
    ensures
        writer_items(writer) == Seq::<XmlItem>::empty(),
        writer_step(writer) == step,
{
    Writer::new_with_indent(Vec::new(), b' ', step)
}

/// Calls `quick_xml::Writer::write_event` on the event for a part. Claims that the part
/// is added behind those that were written: writing to a buffer in memory does not fail.
#[verifier::external_body]
fn write_event(writer: &mut Writer<Vec<u8>>, event: &XmlEvent)
    ensures
        writer_items(*final(writer)) == writer_items(*old(writer)).push(event@),
        writer_step(*final(writer)) == writer_step(*old(writer)),
{
    let _ = writer.write_event(match event {
        XmlEvent::Decl(v, e) => Event::Decl(BytesDecl::new(v, Some(e.as_str()), None)),
        XmlEvent::Start(n, a) => Event::Start(
            BytesStart::new(n).with_attributes(a.iter().map(|p| (p.0.as_str(), p.1.as_str()))),
        ),
        XmlEvent::Empty(n, a) => Event::Empty(
            BytesStart::new(n).with_attributes(a.iter().map(|p| (p.0.as_str(), p.1.as_str()))),
        ),
        XmlEvent::Text(t) => Event::Text(BytesText::new(t)),
        XmlEvent::End(n) => Event::End(BytesEnd::new(n)),
    });
}

/// Calls `quick_xml::Writer::into_inner` and takes the bytes as text. Claims that the
/// text is that of the parts that were written: each tag but the first on a line of its
/// own, moved in by the depth of its element, unless a text stands before it; the special
/// characters of texts and attributes replaced by references; names as they are.
#[verifier::external_body]
fn into_text(writer: Writer<Vec<u8>>) -> (text: String)
    ensures
        text@ == document_text(writer_items(writer), writer_step(writer)),
{
    String::from_utf8_lossy(&writer.into_inner()).into_owned()
}

/// The spaces by which the elements of a document are moved in.
pub const INDENT: usize = 2;

/// The parts of a document with a declaration.
pub open spec fn declared(body: Seq<XmlItem>) -> Seq<XmlItem> {
    seq![XmlItem::Decl("1.0"@, "UTF-8"@)] + body
}

/// The text of a document with a declaration.
pub open spec fn xml_text(body: Seq<XmlItem>) -> Seq<char> {
    document_text(declared(body), INDENT as nat)
}

/// Writes a document with a declaration.
pub fn write_document(body: Vec<XmlEvent>) -> (text: String)
    ensures
        text@ == xml_text(items(body@)),
{
    let mut writer: Writer<Vec<u8>> = new_writer(INDENT);
    let decl: XmlEvent = XmlEvent::Decl("1.0".to_owned(), "UTF-8".to_owned());
    write_event(&mut writer, &decl);
    let ghost first = seq![XmlItem::Decl("1.0"@, "UTF-8"@)];
    assert(writer_items(writer) =~= first + items(body@.take(0)));
    for i in 0..body.len()
        invariant
            first == seq![XmlItem::Decl("1.0"@, "UTF-8"@)],
            writer_items(writer) == first + items(body@.take(i as int)),
            writer_step(writer) == INDENT,
    {
        write_event(&mut writer, &body[i]);
        assert(writer_items(writer) =~= first + items(body@.take(i + 1)));
    }
    assert(body@.take(body@.len() as int) =~= body@);
    into_text(writer)
}

/// A character that would be read as markup.
pub open spec fn is_markup(c: char) -> bool {
    c == '<' || c == '>' || c == '"' || c == '\''
}

proof fn lemma_escaped_char(c: char)
    ensures
        forall|i: int| 0 <= i < escaped_char(c).len() ==> !is_markup(#[trigger] escaped_char(c)[i]),
{
    reveal_strlit("&lt;");
    reveal_strlit("&gt;");
    reveal_strlit("&amp;");
    reveal_strlit("&apos;");
    reveal_strlit("&quot;");
}

/// No character of a text or of an attribute is read as markup, whatever it holds.
pub proof fn law_contents_are_no_markup(s: Seq<char>)
    ensures
        forall|i: int| 0 <= i < escaped(s).len() ==> !is_markup(#[trigger] escaped(s)[i]),
    decreases s.len(),
{
    if s.len() > 0 {
        law_contents_are_no_markup(s.drop_last());
        lemma_escaped_char(s.last());
        let a = escaped(s.drop_last());
        assert forall|i: int| 0 <= i < escaped(s).len() implies !is_markup(
            #[trigger] escaped(s)[i],
        ) by {
            if i < a.len() {
                assert(escaped(s)[i] == a[i]);
            } else {
                assert(escaped(s)[i] == escaped_char(s.last())[i - a.len()]);
            }
        }
    }
}

/// How deep parts lead into elements: how many elements they start and do not end.
pub open spec fn depth(items: Seq<XmlItem>) -> int
    decreases items.len(),
{
    if items.len() == 0 {
        0
    } else {
        depth(items.drop_last()) + (match items.last() {
            XmlItem::Start(_, _) => 1int,
            XmlItem::End(_) => -1int,
            _ => 0int,
        })
    }
}

/// Parts whose elements are all started and ended, and never ended before.
pub open spec fn is_nested(items: Seq<XmlItem>) -> bool {
    &&& depth(items) == 0
    &&& forall|n: int| 0 <= n <= items.len() ==> depth(#[trigger] items.take(n)) >= 0
}

proof fn lemma_depth_concat(a: Seq<XmlItem>, b: Seq<XmlItem>)
    ensures
        depth(a + b) == depth(a) + depth(b),
    decreases b.len(),
{
    if b.len() == 0 {
        assert(a + b =~= a);
    } else {
        lemma_depth_concat(a, b.drop_last());
        assert((a + b).drop_last() =~= a + b.drop_last());
        assert((a + b).last() == b.last());
    }
}

/// Nested parts one after the other are nested.
pub proof fn law_nested_parts_join(a: Seq<XmlItem>, b: Seq<XmlItem>)
    requires
        is_nested(a),
        is_nested(b),
    ensures
        is_nested(a + b),
{
    lemma_depth_concat(a, b);
    assert forall|n: int| 0 <= n <= (a + b).len() implies depth(#[trigger] (a + b).take(n)) >= 0 by {
        if n <= a.len() {
            assert((a + b).take(n) =~= a.take(n));
        } else {
            let m = n - a.len();
            assert((a + b).take(n) =~= a + b.take(m));
            lemma_depth_concat(a, b.take(m));
            assert(depth(b.take(m)) >= 0);
        }
    }
}

/// An element around nested parts is nested, and so are a text and an element without
/// contents.
pub proof fn law_elements_are_nested(
    name: Seq<char>,
    attrs: Seq<(Seq<char>, Seq<char>)>,
    inner: Seq<XmlItem>,
    text: Seq<char>,
)
    requires
        is_nested(inner),
    ensures
        is_nested(element(name, attrs, inner)),
        is_nested(empty_element(name, attrs)),
        is_nested(seq![XmlItem::Text(text)]),
{
    let start = seq![XmlItem::Start(name, attrs)];
    let end = seq![XmlItem::End(name)];
    let all = element(name, attrs, inner);
    lemma_depth_one(XmlItem::Start(name, attrs));
    lemma_depth_one(XmlItem::End(name));
    lemma_depth_one(XmlItem::Empty(name, attrs));
    lemma_depth_one(XmlItem::Text(text));
    lemma_depth_concat(start, inner);
    lemma_depth_concat(start + inner, end);
    assert forall|n: int| 0 <= n <= all.len() implies depth(#[trigger] all.take(n)) >= 0 by {
        if n == 0 {
            assert(all.take(n) =~= Seq::empty());
        } else if n <= inner.len() + 1 {
            assert(all.take(n) =~= start + inner.take(n - 1));
            lemma_depth_concat(start, inner.take(n - 1));
            assert(depth(inner.take(n - 1)) >= 0);
        } else {
            assert(all.take(n) =~= all);
        }
    }
    let e = empty_element(name, attrs);
    assert forall|n: int| 0 <= n <= e.len() implies depth(#[trigger] e.take(n)) >= 0 by {
        if n == 0 {
            assert(e.take(n) =~= Seq::empty());
        } else {
            assert(e.take(n) =~= e);
        }
    }
    let t = seq![XmlItem::Text(text)];
    assert forall|n: int| 0 <= n <= t.len() implies depth(#[trigger] t.take(n)) >= 0 by {
        if n == 0 {
            assert(t.take(n) =~= Seq::empty());
        } else {
            assert(t.take(n) =~= t);
        }
    }
}

proof fn lemma_depth_one(item: XmlItem)
    ensures
        depth(seq![item]) == (match item {
            XmlItem::Start(_, _) => 1int,
            XmlItem::End(_) => -1int,
            _ => 0int,
        }),
{
    assert(seq![item].drop_last() =~= Seq::empty());
    assert(depth(Seq::<XmlItem>::empty()) == 0);
}

// ─── Reading ───

/// A piece of a document that is read, as a value. Elements have their local names.
pub enum XmlPiece {
    /// The start of an element that has an end.
    Open(Seq<char>),
    /// The end of an element.
    Close(Seq<char>),
    /// A text, a marked section, or a reference to a character.
    Text(Seq<char>),
    /// An element without contents, a comment, or anything else.
    Other,
    /// The end of the document.
    End,
    /// A place that cannot be read.
    Broken,
}

/// A piece of a document that is read.
pub enum XmlToken {
    Open(String),
    Close(String),
    Text(String),
    Other,
    End,
    Broken,
}

impl View for XmlToken {
    type V = XmlPiece;

    open spec fn view(&self) -> XmlPiece {
        match self {
            XmlToken::Open(name) => XmlPiece::Open(name@),
            XmlToken::Close(name) => XmlPiece::Close(name@),
            XmlToken::Text(text) => XmlPiece::Text(text@),
            XmlToken::Other => XmlPiece::Other,
            XmlToken::End => XmlPiece::End,
            XmlToken::Broken => XmlPiece::Broken,
        }
    }
}

/// Pieces, as values.
pub open spec fn pieces(tokens: Seq<XmlToken>) -> Seq<XmlPiece> {
    tokens.map_values(|t: XmlToken| t@)
}

/// A document ends, or cannot be read on, with this piece.
pub open spec fn is_last(piece: XmlPiece) -> bool {
    piece == XmlPiece::End || piece == XmlPiece::Broken
}

/// Pieces up to the first with which a document ends, or cannot be read on.
pub open spec fn is_whole(pieces: Seq<XmlPiece>) -> bool {
    &&& pieces.len() > 0
    &&& is_last(pieces.last())
    &&& forall|i: int| 0 <= i < pieces.len() - 1 ==> !is_last(#[trigger] pieces[i])
}

/// The reader of documents.
#[verifier::external_type_specification]
#[verifier::external_body]
#[verifier::reject_recursive_types(R)]
pub struct ExReader<R>(Reader<R>);

/// The pieces that `quick_xml::Reader` finds in a text, up to the end or to the first
/// place that it cannot read.
pub uninterp spec fn xml_pieces(text: Seq<char>) -> Seq<XmlPiece>;

/// The pieces that a reader has yet to give.
pub uninterp spec fn reader_pieces(reader: Reader<&[u8]>) -> Seq<XmlPiece>;

/// Calls `quick_xml::Reader::from_str`. Claims that the reader has yet to give the pieces
/// of the text, of which the last is the end or a place that cannot be read.
#[verifier::external_body]
fn new_reader(text: &str) -> (reader: Reader<&[u8]>)
    ensures
        reader_pieces(reader) == xml_pieces(text@),
        is_whole(reader_pieces(reader)),
{
    Reader::from_str(text)
}

/// Calls `quick_xml::Reader::read_event_into`, and takes a reference to a character as the
/// character that `resolve_char_ref` gives. Claims that this is the next piece.
#[verifier::external_body]
fn next_piece(reader: &mut Reader<&[u8]>) -> (token: XmlToken)
    requires
        reader_pieces(*old(reader)).len() > 0,
    ensures
        token@ == reader_pieces(*old(reader))[0],
        reader_pieces(*final(reader)) == reader_pieces(*old(reader)).drop_first(),
{
    let text = |bytes: &[u8]| String::from_utf8_lossy(bytes).into_owned();
    match reader.read_event_into(&mut Vec::new()) {
        Ok(event) => match event {
            Event::Start(e) => XmlToken::Open(text(e.local_name().as_ref())),
            Event::End(e) => XmlToken::Close(text(e.local_name().as_ref())),
            Event::Text(t) => XmlToken::Text(text(&t)),
            Event::CData(t) => XmlToken::Text(text(&t)),
            Event::GeneralRef(r) => r.resolve_char_ref().ok().flatten().map_or(
                XmlToken::Other, |c| XmlToken::Text(c.into())),
            Event::Eof => XmlToken::End,
            _ => XmlToken::Other,
        },
        Err(_) => XmlToken::Broken,
    }
}

/// The pieces of a text.
pub fn read_pieces(text: &str) -> (tokens: Vec<XmlToken>)
    ensures
        pieces(tokens@) == xml_pieces(text@),
        is_whole(pieces(tokens@)),
{
    let mut reader: Reader<&[u8]> = new_reader(text);
    let mut tokens: Vec<XmlToken> = Vec::new();
    let ghost all = xml_pieces(text@);
    assert(all =~= pieces(tokens@) + reader_pieces(reader));
    loop
        invariant
            all == xml_pieces(text@),
            is_whole(all),
            all == pieces(tokens@) + reader_pieces(reader),
            reader_pieces(reader).len() > 0,
        decreases reader_pieces(reader).len(),
    {
        let ghost before = reader_pieces(reader);
        let ghost told = pieces(tokens@);
        let token: XmlToken = next_piece(&mut reader);
        let last: bool = matches!(token, XmlToken::End | XmlToken::Broken);
        assert(all[told.len() as int] == token@);
        tokens.push(token);
        assert(pieces(tokens@) =~= told.push(before[0]));
        assert(pieces(tokens@) + reader_pieces(reader) =~= all);
        if last {
            assert(told.len() == all.len() - 1);
            assert(pieces(tokens@) =~= all);
            return tokens;
        }
    }
}

// ─── What holds of documents ───

/// The parts of a document as values are those of its events, one for one and in order.
pub proof fn law_values_of_parts(events: Seq<XmlEvent>, attrs: Seq<(String, String)>, i: int)
    ensures
        items(events).len() == events.len(),
        0 <= i < events.len() ==> match events[i] {
            XmlEvent::Decl(v, e) => items(events)[i] == XmlItem::Decl(v@, e@),
            XmlEvent::Start(n, a) => items(events)[i] == XmlItem::Start(n@, attrs_view(a@)),
            XmlEvent::Empty(n, a) => items(events)[i] == XmlItem::Empty(n@, attrs_view(a@)),
            XmlEvent::Text(t) => items(events)[i] == XmlItem::Text(t@),
            XmlEvent::End(n) => items(events)[i] == XmlItem::End(n@),
        },
        attrs_view(attrs).len() == attrs.len(),
        0 <= i < attrs.len() ==> attrs_view(attrs)[i].0 == attrs[i].0@ && attrs_view(attrs)[i].1
            == attrs[i].1@,
{
}

/// An element starts with its name and its attributes, holds its parts in order, and ends with
/// its name. One with a text holds the text alone; one without contents is a single part.
pub proof fn law_parts_of_elements(
    name: &str,
    attrs: Attrs,
    inner: Vec<XmlEvent>,
    r: Vec<XmlEvent>,
    text: &str,
    leaf_parts: Vec<XmlEvent>,
    empty: Vec<XmlEvent>,
    i: int,
)
    requires
        call_ensures(elem, (name, attrs, inner), r),
        call_ensures(leaf, (name, text), leaf_parts),
        call_ensures(write_empty, (name, attrs), empty),
    ensures
        r@.len() == inner@.len() + 2,
        r@[0]@ == XmlItem::Start(name@, attrs_view(attrs@)),
        0 <= i < inner@.len() ==> r@[i + 1]@ == inner@[i]@,
        r@[inner@.len() as int + 1]@ == XmlItem::End(name@),
        leaf_parts@.len() == 3,
        leaf_parts@[0]@ == XmlItem::Start(name@, Seq::empty()),
        leaf_parts@[1]@ == XmlItem::Text(text@),
        leaf_parts@[2]@ == XmlItem::End(name@),
        empty@.len() == 1,
        empty@[0]@ == XmlItem::Empty(name@, attrs_view(attrs@)),
{
    let (a, b) = (items(r@), items(inner@));
    assert(a.len() == r@.len() && b.len() == inner@.len());
    assert(a[0] == r@[0]@);
    assert(a[b.len() as int + 1] == r@[inner@.len() as int + 1]@);
    if 0 <= i < inner@.len() {
        assert(a[i + 1] == r@[i + 1]@);
        assert(b[i] == inner@[i]@);
    }
    let c = items(leaf_parts@);
    assert(c.len() == leaf_parts@.len());
    assert(c[0] == leaf_parts@[0]@ && c[1] == leaf_parts@[1]@ && c[2] == leaf_parts@[2]@);
    let d = items(empty@);
    assert(d.len() == empty@.len());
    assert(d[0] == empty@[0]@);
}

/// Parts that are joined are those of the first and then those of the second; an attribute is
/// added behind the others.
pub proof fn law_parts_are_joined(
    a: Vec<XmlEvent>,
    b: Vec<XmlEvent>,
    r: Vec<XmlEvent>,
    attrs: Attrs,
    name: &str,
    value: &str,
    more: Attrs,
    i: int,
)
    requires
        call_ensures(join, (a, b), r),
        call_ensures(with_attr, (attrs, name, value), more),
    ensures
        r@.len() == a@.len() + b@.len(),
        0 <= i < a@.len() ==> r@[i]@ == a@[i]@,
        0 <= i < b@.len() ==> r@[a@.len() + i]@ == b@[i]@,
        more@.len() == attrs@.len() + 1,
        0 <= i < attrs@.len() ==> more@[i].0@ == attrs@[i].0@ && more@[i].1@ == attrs@[i].1@,
        more@[attrs@.len() as int].0@ == name@ && more@[attrs@.len() as int].1@ == value@,
{
    let (x, y, z) = (items(a@), items(b@), items(r@));
    assert(x.len() == a@.len() && y.len() == b@.len() && z.len() == r@.len());
    if 0 <= i < a@.len() {
        assert(z[i] == r@[i]@ && x[i] == a@[i]@);
    }
    if 0 <= i < b@.len() {
        assert(z[x.len() + i] == r@[a@.len() + i]@ && y[i] == b@[i]@);
    }
    let (p, q) = (attrs_view(attrs@), attrs_view(more@));
    assert(p.len() == attrs@.len() && q.len() == more@.len());
    let n = attrs@.len() as int;
    assert(q[n] == (more@[n].0@, more@[n].1@));
    if 0 <= i < attrs@.len() {
        assert(q[i] == (more@[i].0@, more@[i].1@));
        assert(p[i] == (attrs@[i].0@, attrs@[i].1@));
    }
}

/// A document has a declaration, and then its parts; its elements are moved in by two spaces.
pub proof fn law_documents_have_a_declaration(body: Vec<XmlEvent>, text: String)
    requires
        call_ensures(write_document, (body,), text),
    ensures
        text@ == document_text(
            seq![XmlItem::Decl("1.0"@, "UTF-8"@)] + body@.map_values(|e: XmlEvent| e@),
            2,
        ),
{
}

/// The special characters of a text are replaced by references, one by one; every other
/// character stays.
pub proof fn law_special_characters(s: Seq<char>, c: char)
    ensures
        escaped(Seq::empty()).len() == 0,
        escaped(s.push(c)) == escaped(s) + (if c == '<' {
            "&lt;"@
        } else if c == '>' {
            "&gt;"@
        } else if c == '&' {
            "&amp;"@
        } else if c == '\'' {
            "&apos;"@
        } else if c == '"' {
            "&quot;"@
        } else {
            seq![c]
        }),
{
    assert(s.push(c).drop_last() =~= s);
}

/// What each part adds to the text of a document: a tag starts a line, moved in by the depth of
/// its element, unless it is the first part or follows a text.
pub proof fn law_parts_are_written_in_order(parts: Seq<XmlItem>, part: XmlItem, step: nat)
    ensures
        written(Seq::empty(), step).text.len() == 0,
        ({
            let w = written(parts, step);
            let more = written(parts.push(part), step);
            let gap = if w.breaks {
                seq!['\n'] + Seq::new(w.indent, |i: int| ' ')
            } else {
                Seq::empty()
            };
            match part {
                XmlItem::Text(text) => more.text == w.text + escaped(text) && more.indent
                    == w.indent && !more.breaks,
                XmlItem::Start(name, attrs) => more.text == w.text + gap + "<"@ + name
                    + attrs_text(attrs) + ">"@ && more.indent == w.indent + step && more.breaks,
                XmlItem::Empty(name, attrs) => more.text == w.text + gap + "<"@ + name
                    + attrs_text(attrs) + "/>"@ && more.indent == w.indent && more.breaks,
                XmlItem::End(name) => w.indent >= step ==> more.indent == w.indent - step
                    && more.breaks && (!w.breaks ==> more.text == w.text + "</"@ + name + ">"@),
                XmlItem::Decl(version, encoding) => more.text == w.text + gap
                    + "<?xml version=\""@ + version + "\" encoding=\""@ + encoding + "\"?>"@
                    && more.breaks,
            }
        }),
{
    assert(parts.push(part).drop_last() =~= parts);
    let w = written(parts, step);
    assert(w.text + Seq::<char>::empty() =~= w.text);
}

} // verus!
