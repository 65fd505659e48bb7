//! Text as sequences of characters.
//!
//! The functions of this module work on the characters of a string (its view),
//! never on its bytes, so that their contracts read as statements about
//! `Seq<char>`.

use vstd::prelude::*;

verus! {

// ─── Standard library functions ───

/// `String::push` appends the given character to the end of the string.
pub assume_specification[ String::push ](s: &mut String, c: char)
    ensures
        final(s)@ == old(s)@.push(c),
;

/// What `str::to_lowercase` makes of a text.
pub uninterp spec fn lowercase(s: Seq<char>) -> Seq<char>;

/// What `str::to_uppercase` makes of a text.
pub uninterp spec fn uppercase(s: Seq<char>) -> Seq<char>;

/// Whether `char::is_alphanumeric` holds of a character.
pub uninterp spec fn alphanumeric(c: char) -> bool;

/// An ASCII upper-case letter becomes the lower-case one, any other character stays.
pub open spec fn ascii_lower(c: char) -> char {
    if 'A' <= c && c <= 'Z' {
        (c as u32 + 32) as char
    } else {
        c
    }
}

/// An ASCII lower-case letter becomes the upper-case one, any other character stays.
pub open spec fn ascii_upper(c: char) -> char {
    if 'a' <= c && c <= 'z' {
        (c as u32 - 32) as char
    } else {
        c
    }
}

/// Every character of the text is an ASCII character.
pub open spec fn all_ascii(s: Seq<char>) -> bool {
    forall|i: int| 0 <= i < s.len() ==> (#[trigger] s[i]) as u32 <= 127
}

/// Calls `str::to_lowercase`. The result is named `lowercase`; of ASCII text it is
/// claimed that each letter is replaced by its lower-case counterpart.
#[verifier::external_body]
fn to_lower(s: &str) -> (r: String)
    ensures
        r@ == lowercase(s@),
        all_ascii(s@) ==> r@ == s@.map_values(|c: char| ascii_lower(c)),
{
    s.to_lowercase()
}

/// Calls `str::to_uppercase`. The result is named `uppercase`; of ASCII text it is
/// claimed that each letter is replaced by its upper-case counterpart.
#[verifier::external_body]
fn to_upper(s: &str) -> (r: String)
    ensures
        r@ == uppercase(s@),
        all_ascii(s@) ==> r@ == s@.map_values(|c: char| ascii_upper(c)),
{
    s.to_uppercase()
}

/// Calls `char::is_alphanumeric`. The result is named `alphanumeric`; of an ASCII
/// character it is claimed that exactly the letters and digits have it.
#[verifier::external_body]
fn is_alphanumeric(c: char) -> (r: bool)
    ensures
        r == alphanumeric(c),
        c as u32 <= 127 ==> r == (('0' <= c && c <= '9') || ('A' <= c && c <= 'Z') || ('a' <= c && c
            <= 'z')),
{
    c.is_alphanumeric()
}

/// A text in lower case.
pub open spec fn lowered(s: Seq<char>) -> Seq<char> {
    if all_ascii(s) {
        s.map_values(|c: char| ascii_lower(c))
    } else {
        lowercase(s)
    }
}

/// A text in upper case.
pub open spec fn raised(s: Seq<char>) -> Seq<char> {
    if all_ascii(s) {
        s.map_values(|c: char| ascii_upper(c))
    } else {
        uppercase(s)
    }
}

/// A character is a letter or a digit.
pub open spec fn letter_or_digit(c: char) -> bool {
    if c as u32 <= 127 {
        ('0' <= c && c <= '9') || ('A' <= c && c <= 'Z') || ('a' <= c && c <= 'z')
    } else {
        alphanumeric(c)
    }
}

/// Puts a text in lower case.
pub fn lower(s: &str) -> (r: String)
    ensures
        r@ == lowered(s@),
{
    to_lower(s)
}

/// Puts a text in upper case.
pub fn upper(s: &str) -> (r: String)
    ensures
        r@ == raised(s@),
{
    to_upper(s)
}

/// Tells whether a character is a letter or a digit.
pub fn is_letter_or_digit(c: char) -> (r: bool)
    ensures
        r == letter_or_digit(c),
{
    is_alphanumeric(c)
}

// ─── Characters and strings ───

/// The characters of a string, in order.
pub fn chars_of(s: &str) -> (v: Vec<char>)
    ensures
        v@ == s@,
{
    let mut v: Vec<char> = Vec::new();
    for c in it: s.chars()
        invariant
            v@.len() == it.index(),
            it.seq() == s@,
            forall|i: int| 0 <= i < v@.len() ==> v@[i] == s@[i],
    {
        v.push(c);
    }
    assert(v@ =~= s@);
    v
}

/// The string that holds the given characters.
pub fn string_of(v: &[char]) -> (s: String)
    ensures
        s@ == v@,
{
    let mut s = String::new();
    for i in 0..v.len()
        invariant
            s@ == v@.take(i as int),
    {
        s.push(v[i]);
        assert(v@.take(i + 1) =~= v@.take(i as int).push(v@[i as int]));
    }
    assert(v@.take(v@.len() as int) =~= v@);
    s
}

/// Whether two strings hold the same text.
pub fn str_eq(a: &str, b: &str) -> (r: bool)
    ensures
        r == (a@ == b@),
{
    a.to_owned() == b.to_owned()
}

/// The text of `a` followed by that of `b`.
pub fn concat2(a: &str, b: &str) -> (r: String)
    ensures
        r@ == a@ + b@,
{
    let mut r: String = a.to_owned();
    r.append(b);
    r
}

/// The texts of `a`, `b` and `c`, one after the other.
pub fn concat3(a: &str, b: &str, c: &str) -> (r: String)
    ensures
        r@ == a@ + b@ + c@,
{
    let mut r: String = a.to_owned();
    r.append(b);
    r.append(c);
    r
}

/// The part of `v` from `from` up to `to`, as a string.
pub fn slice_text(v: &[char], from: usize, to: usize) -> (s: String)
    requires
        from <= to <= v@.len(),
    ensures
        s@ == v@.subrange(from as int, to as int),
{
    let mut s = String::new();
    for i in from..to
        invariant
            from <= to <= v@.len(),
            s@ == v@.subrange(from as int, i as int),
    {
        s.push(v[i]);
        assert(v@.subrange(from as int, i + 1) =~= v@.subrange(from as int, i as int).push(
            v@[i as int],
        ));
    }
    s
}

// ─── Searching ───

/// `p` stands in `s` at position `i`.
pub open spec fn occurs_at(s: Seq<char>, p: Seq<char>, i: int) -> bool {
    0 <= i && i + p.len() <= s.len() && s.subrange(i, i + p.len()) == p
}

/// `p` stands somewhere in `s`.
pub open spec fn has_text(s: Seq<char>, p: Seq<char>) -> bool {
    exists|i: int| occurs_at(s, p, i)
}

/// Whether `p` stands in `s` at position `i`.
pub fn occurs_here(s: &[char], p: &[char], i: usize) -> (r: bool)
    requires
        i <= s@.len(),
    ensures
        r == occurs_at(s@, p@, i as int),
{
    let n: usize = s.len();
    if p.len() > n - i {
        return false;
    }
    for j in 0..p.len()
        invariant
            i + p@.len() <= s@.len(),
            s@.len() == n,
            s@.subrange(i as int, i + j) == p@.take(j as int),
    {
        if s[i + j] != p[j] {
            proof {
                if occurs_at(s@, p@, i as int) {
                    assert(s@.subrange(i as int, i + p@.len())[j as int] == p@[j as int]);
                }
            }
            return false;
        }
        assert(s@.subrange(i as int, i + j + 1) =~= s@.subrange(i as int, i + j).push(
            s@[i + j],
        ));
        assert(p@.take(j + 1) =~= p@.take(j as int).push(p@[j as int]));
    }
    assert(p@.take(p@.len() as int) =~= p@);
    true
}

/// The first position at or after `from` at which `p` stands in `s`.
pub fn find_from(s: &[char], p: &[char], from: usize) -> (r: Option<usize>)
    requires
        from <= s@.len(),
    ensures
        match r {
            Some(i) => from <= i && occurs_at(s@, p@, i as int) && forall|k: int|
                from <= k < i ==> !occurs_at(s@, p@, k),
            None => forall|k: int| from <= k ==> !occurs_at(s@, p@, k),
        },
{
    let mut i: usize = from;
    loop
        invariant
            from <= i <= s@.len(),
            forall|k: int| from <= k < i ==> !occurs_at(s@, p@, k),
        decreases s@.len() - i,
    {
        if occurs_here(s, p, i) {
            return Some(i);
        }
        if i >= s.len() {
            return None;
        }
        i += 1;
    }
}

/// Whether `p` stands somewhere in `s`.
pub fn contains_text(s: &str, p: &str) -> (r: bool)
    ensures
        r == has_text(s@, p@),
{
    let sc = chars_of(s);
    let pc = chars_of(p);
    match find_from(&sc, &pc, 0) {
        Some(i) => {
            assert(occurs_at(s@, p@, i as int));
            true
        },
        None => {
            proof {
                if has_text(s@, p@) {
                    let i = choose|i: int| occurs_at(s@, p@, i);
                    assert(occurs_at(s@, p@, i));
                }
            }
            false
        },
    }
}

// ─── Splitting ───

/// The pieces of `s` between the occurrences of `sep`; one piece more than
/// there are separators.
pub open spec fn split_spec(s: Seq<char>, sep: char) -> Seq<Seq<char>>
    decreases s.len(),
{
    if s.len() == 0 {
        seq![Seq::<char>::empty()]
    } else {
        let before = split_spec(s.drop_last(), sep);
        if s.last() == sep {
            before.push(Seq::<char>::empty())
        } else {
            before.drop_last().push(before.last().push(s.last()))
        }
    }
}

/// Splitting never gives back nothing.
pub proof fn lemma_split_nonempty(s: Seq<char>, sep: char)
    ensures
        split_spec(s, sep).len() >= 1,
    decreases s.len(),
{
    if s.len() > 0 {
        lemma_split_nonempty(s.drop_last(), sep);
    }
}

/// The views of a list of strings.
pub open spec fn texts(v: Seq<String>) -> Seq<Seq<char>> {
    v.map_values(|s: String| s@)
}

/// A string that may be missing, as a value.
pub open spec fn text_of(t: Option<String>) -> Option<Seq<char>> {
    match t {
        Some(s) => Some(s@),
        None => None,
    }
}

/// The pieces of `s` between the occurrences of `sep`.
pub fn split(s: &str, sep: char) -> (r: Vec<String>)
    ensures
        texts(r@) == split_spec(s@, sep),
        r@.len() >= 1,
{
    let v = chars_of(s);
    let mut r: Vec<String> = Vec::new();
    let mut piece = String::new();
    for i in 0..v.len()
        invariant
            v@ == s@,
            texts(r@).push(piece@) == split_spec(v@.take(i as int), sep),
    {
        let ghost before = split_spec(v@.take(i as int), sep);
        assert(v@.take(i + 1).drop_last() =~= v@.take(i as int));
        assert(before.drop_last() =~= texts(r@));
        if v[i] == sep {
            let ghost old_r = r@;
            r.push(piece);
            assert(texts(r@) =~= texts(old_r).push(piece@));
            piece = String::new();
        } else {
            piece.push(v[i]);
        }
    }
    assert(v@.take(v@.len() as int) =~= s@);
    let ghost old_r = r@;
    r.push(piece);
    assert(texts(r@) =~= texts(old_r).push(piece@));
    r
}

// ─── Trimming ───

/// Whether `c` has the Unicode property `White_Space`.
pub open spec fn white(c: char) -> bool {
    let n = c as u32;
    ||| 9 <= n <= 13
    ||| n == 0x20
    ||| n == 0x85
    ||| n == 0xA0
    ||| n == 0x1680
    ||| 0x2000 <= n <= 0x200A
    ||| n == 0x2028
    ||| n == 0x2029
    ||| n == 0x202F
    ||| n == 0x205F
    ||| n == 0x3000
}

/// Whether `c` is white space.
pub fn is_white(c: char) -> (r: bool)
    ensures
        r == white(c),
{
    let n: u32 = c as u32;
    (9 <= n && n <= 13) || n == 0x20 || n == 0x85 || n == 0xA0 || n == 0x1680 || (0x2000 <= n && n
        <= 0x200A) || n == 0x2028 || n == 0x2029 || n == 0x202F || n == 0x205F || n == 0x3000
}

/// `s` without the white space at its start.
pub open spec fn trim_start_spec(s: Seq<char>) -> Seq<char>
    decreases s.len(),
{
    if s.len() > 0 && white(s[0]) {
        trim_start_spec(s.drop_first())
    } else {
        s
    }
}

/// `s` without the white space at its end.
pub open spec fn trim_end_spec(s: Seq<char>) -> Seq<char>
    decreases s.len(),
{
    if s.len() > 0 && white(s.last()) {
        trim_end_spec(s.drop_last())
    } else {
        s
    }
}

/// `s` without the white space at its start and at its end.
pub open spec fn trim_spec(s: Seq<char>) -> Seq<char> {
    trim_end_spec(trim_start_spec(s))
}

/// `s` without the occurrences of `c` at its end.
pub open spec fn trim_end_char_spec(s: Seq<char>, c: char) -> Seq<char>
    decreases s.len(),
{
    if s.len() > 0 && s.last() == c {
        trim_end_char_spec(s.drop_last(), c)
    } else {
        s
    }
}

/// `s` without the occurrences of `c` at its start.
pub open spec fn trim_start_char_spec(s: Seq<char>, c: char) -> Seq<char>
    decreases s.len(),
{
    if s.len() > 0 && s[0] == c {
        trim_start_char_spec(s.drop_first(), c)
    } else {
        s
    }
}

/// Takes the white space off both ends of `s`.
pub fn trim(s: &str) -> (r: String)
    ensures
        r@ == trim_spec(s@),
{
    let v = chars_of(s);
    let mut from: usize = 0;
    assert(v@.subrange(0, v@.len() as int) =~= s@);
    while from < v.len() && is_white(v[from])
        invariant
            v@ == s@,
            from <= v@.len(),
            trim_start_spec(s@) == trim_start_spec(v@.subrange(from as int, v@.len() as int)),
        decreases v@.len() - from,
    {
        assert(v@.subrange(from as int, v@.len() as int).drop_first() =~= v@.subrange(
            from + 1,
            v@.len() as int,
        ));
        from += 1;
    }
    let ghost rest = v@.subrange(from as int, v@.len() as int);
    assert(trim_start_spec(s@) == rest) by {
        if from < v@.len() {
            assert(rest[0] == v@[from as int]);
        }
    }
    let mut to: usize = v.len();
    while to > from && is_white(v[to - 1])
        invariant
            v@ == s@,
            from <= to <= v@.len(),
            trim_end_spec(rest) == trim_end_spec(v@.subrange(from as int, to as int)),
        decreases to,
    {
        assert(v@.subrange(from as int, to as int).drop_last() =~= v@.subrange(
            from as int,
            to - 1,
        ));
        to -= 1;
    }
    proof {
        let kept = v@.subrange(from as int, to as int);
        if to > from {
            assert(kept.last() == v@[to - 1]);
        }
    }
    slice_text(&v, from, to)
}

/// Takes the occurrences of `c` off the end of `s`.
pub fn trim_end_char(s: &str, c: char) -> (r: String)
    ensures
        r@ == trim_end_char_spec(s@, c),
{
    let v = chars_of(s);
    let mut to: usize = v.len();
    assert(v@.subrange(0, v@.len() as int) =~= s@);
    while to > 0 && v[to - 1] == c
        invariant
            v@ == s@,
            to <= v@.len(),
            trim_end_char_spec(s@, c) == trim_end_char_spec(v@.subrange(0, to as int), c),
        decreases to,
    {
        assert(v@.subrange(0, to as int).drop_last() =~= v@.subrange(0, to - 1));
        to -= 1;
    }
    proof {
        let kept = v@.subrange(0, to as int);
        if to > 0 {
            assert(kept.last() == v@[to - 1]);
        }
    }
    slice_text(&v, 0, to)
}

/// Takes the occurrences of `c` off the start of `s`.
pub fn trim_start_char(s: &str, c: char) -> (r: String)
    ensures
        r@ == trim_start_char_spec(s@, c),
{
    let v = chars_of(s);
    let mut from: usize = 0;
    assert(v@.subrange(0, v@.len() as int) =~= s@);
    while from < v.len() && v[from] == c
        invariant
            v@ == s@,
            from <= v@.len(),
            trim_start_char_spec(s@, c) == trim_start_char_spec(
                v@.subrange(from as int, v@.len() as int),
                c,
            ),
        decreases v@.len() - from,
    {
        assert(v@.subrange(from as int, v@.len() as int).drop_first() =~= v@.subrange(
            from + 1,
            v@.len() as int,
        ));
        from += 1;
    }
    proof {
        let kept = v@.subrange(from as int, v@.len() as int);
        if from < v@.len() {
            assert(kept[0] == v@[from as int]);
        }
    }
    slice_text(&v, from, v.len())
}

// ─── Order ───

/// `a` comes before `b`: at the first position where they differ its code point is
/// the smaller one, or it is a proper prefix of `b`.
pub open spec fn text_before(a: Seq<char>, b: Seq<char>) -> bool
    decreases a.len(),
{
    if b.len() == 0 {
        false
    } else if a.len() == 0 {
        true
    } else if a[0] != b[0] {
        a[0] < b[0]
    } else {
        text_before(a.drop_first(), b.drop_first())
    }
}

/// The order of texts is total: of two texts one comes first, unless they are equal.
pub proof fn law_text_order_total(a: Seq<char>, b: Seq<char>)
    ensures
        text_before(a, b) || text_before(b, a) || a == b,
        !(text_before(a, b) && text_before(b, a)),
        a == b ==> !text_before(a, b),
    decreases a.len(),
{
    if a.len() == 0 && b.len() == 0 {
        assert(a =~= b);
    } else if a.len() > 0 && b.len() > 0 && a[0] == b[0] {
        law_text_order_total(a.drop_first(), b.drop_first());
        if a.drop_first() == b.drop_first() {
            assert(a =~= seq![a[0]] + a.drop_first());
            assert(b =~= seq![b[0]] + b.drop_first());
        }
    }
}

/// The order of texts is transitive.
pub proof fn law_text_order_transitive(a: Seq<char>, b: Seq<char>, c: Seq<char>)
    requires
        text_before(a, b),
        text_before(b, c),
    ensures
        text_before(a, c),
    decreases a.len(),
{
    if a.len() > 0 && b.len() > 0 && c.len() > 0 && a[0] == b[0] && b[0] == c[0] {
        law_text_order_transitive(a.drop_first(), b.drop_first(), c.drop_first());
    }
}

/// Whether the text of `a` comes before that of `b`.
pub fn is_before(a: &str, b: &str) -> (r: bool)
    ensures
        r == text_before(a@, b@),
{
    let av = chars_of(a);
    let bv = chars_of(b);
    let mut i: usize = 0;
    assert(av@.subrange(0, av@.len() as int) =~= a@);
    assert(bv@.subrange(0, bv@.len() as int) =~= b@);
    loop
        invariant
            av@ == a@,
            bv@ == b@,
            i <= av@.len(),
            i <= bv@.len(),
            text_before(a@, b@) == text_before(
                av@.subrange(i as int, av@.len() as int),
                bv@.subrange(i as int, bv@.len() as int),
            ),
        decreases av@.len() - i,
    {
        if i >= bv.len() {
            return false;
        }
        if i >= av.len() {
            return true;
        }
        let ghost ra = av@.subrange(i as int, av@.len() as int);
        let ghost rb = bv@.subrange(i as int, bv@.len() as int);
        assert(ra[0] == av@[i as int]);
        assert(rb[0] == bv@[i as int]);
        if av[i] != bv[i] {
            return av[i] < bv[i];
        }
        assert(ra.drop_first() =~= av@.subrange(i + 1, av@.len() as int));
        assert(rb.drop_first() =~= bv@.subrange(i + 1, bv@.len() as int));
        i += 1;
    }
}

// ─── What holds of texts ───

/// Texts one after the other, with a character between neighbours.
pub open spec fn joined_by(pieces: Seq<Seq<char>>, sep: char) -> Seq<char>
    decreases pieces.len(),
{
    if pieces.len() == 0 {
        Seq::empty()
    } else if pieces.len() == 1 {
        pieces[0]
    } else {
        joined_by(pieces.drop_last(), sep) + seq![sep] + pieces.last()
    }
}

/// The pieces of a text with separators between them are the text, and no piece holds the
/// separator.
pub proof fn lemma_split_joins(s: Seq<char>, sep: char)
    ensures
        split_spec(s, sep).len() >= 1,
        joined_by(split_spec(s, sep), sep) == s,
        forall|i: int|
            0 <= i < split_spec(s, sep).len() ==> !(#[trigger] split_spec(s, sep)[i]).contains(sep),
    decreases s.len(),
{
    let all = split_spec(s, sep);
    if s.len() == 0 {
        assert(all[0] =~= s);
    } else {
        let t = s.drop_last();
        let before = split_spec(t, sep);
        lemma_split_joins(t, sep);
        if s.last() == sep {
            assert(all.drop_last() =~= before);
            assert(joined_by(all, sep) =~= s);
            assert forall|i: int| 0 <= i < all.len() implies !(#[trigger] all[i]).contains(sep) by {
                if i < before.len() {
                    assert(all[i] == before[i]);
                }
            }
        } else {
            let piece = before.last().push(s.last());
            assert(all.drop_last() =~= before.drop_last());
            assert(all.last() == piece);
            if all.len() == 1 {
                assert(before.len() == 1);
                assert(before[0] == t);
                assert(all[0] == piece);
                assert(t.push(s.last()) =~= s);
            } else {
                assert(joined_by(all, sep) =~= joined_by(before.drop_last(), sep) + seq![sep]
                    + piece);
                assert(joined_by(before, sep) =~= joined_by(before.drop_last(), sep) + seq![sep]
                    + before.last());
                assert(joined_by(all, sep) =~= joined_by(before, sep).push(s.last()));
                assert(t.push(s.last()) =~= s);
            }
            assert forall|i: int| 0 <= i < all.len() implies !(#[trigger] all[i]).contains(sep) by {
                if i < all.len() - 1 {
                    assert(all[i] == before[i]);
                } else {
                    assert(!before[i].contains(sep));
                    if all[i].contains(sep) {
                        let k = choose|k: int| 0 <= k < all[i].len() && all[i][k] == sep;
                        assert(k < before[i].len());
                        assert(before[i][k] == sep);
                    }
                }
            }
        }
    }
}

/// Splitting cuts a text at every separator and nowhere else: no piece holds the separator,
/// and the pieces with separators between them are the text.
pub proof fn law_split_cuts_at_separators(s: &str, sep: char, pieces: Vec<String>)
    requires
        call_ensures(split, (s, sep), pieces),
    ensures
        pieces@.len() >= 1,
        joined_by(Seq::new(pieces@.len(), |i: int| pieces@[i]@), sep) == s@,
        forall|i: int| 0 <= i < pieces@.len() ==> !(#[trigger] pieces@[i])@.contains(sep),
{
    lemma_split_joins(s@, sep);
    assert(Seq::new(pieces@.len(), |i: int| pieces@[i]@) =~= split_spec(s@, sep));
    assert forall|i: int| 0 <= i < pieces@.len() implies !(#[trigger] pieces@[i])@.contains(
        sep,
    ) by {
        assert(texts(pieces@)[i] == pieces@[i]@);
    }
}

proof fn lemma_trim_start(s: Seq<char>)
    ensures
        exists|k: int|
            0 <= k <= s.len() && trim_start_spec(s) == s.skip(k) && (forall|i: int|
                0 <= i < k ==> white(#[trigger] s[i])) && (k < s.len() ==> !white(s[k])),
    decreases s.len(),
{
    if s.len() > 0 && white(s[0]) {
        let t = s.drop_first();
        lemma_trim_start(t);
        let k = choose|k: int|
            0 <= k <= t.len() && trim_start_spec(t) == t.skip(k) && (forall|i: int|
                0 <= i < k ==> white(#[trigger] t[i])) && (k < t.len() ==> !white(t[k]));
        assert(t.skip(k) =~= s.skip(k + 1));
        assert forall|i: int| 0 <= i < k + 1 implies white(#[trigger] s[i]) by {
            if i > 0 {
                assert(white(t[i - 1]));
            }
        }
        if k < t.len() {
            assert(s[k + 1] == t[k]);
        }
        assert(0 <= k + 1 <= s.len() && trim_start_spec(s) == s.skip(k + 1));
    } else {
        assert(s.skip(0) =~= s);
        assert(0 <= 0 <= s.len() && trim_start_spec(s) == s.skip(0));
    }
}

proof fn lemma_trim_end(s: Seq<char>)
    ensures
        exists|k: int|
            0 <= k <= s.len() && trim_end_spec(s) == s.take(k) && (forall|i: int|
                k <= i < s.len() ==> white(#[trigger] s[i])) && (k > 0 ==> !white(s[k - 1])),
    decreases s.len(),
{
    if s.len() > 0 && white(s.last()) {
        let t = s.drop_last();
        lemma_trim_end(t);
        let k = choose|k: int|
            0 <= k <= t.len() && trim_end_spec(t) == t.take(k) && (forall|i: int|
                k <= i < t.len() ==> white(#[trigger] t[i])) && (k > 0 ==> !white(t[k - 1]));
        assert(t.take(k) =~= s.take(k));
        assert forall|i: int| k <= i < s.len() implies white(#[trigger] s[i]) by {
            if i < t.len() {
                assert(white(t[i]));
            }
        }
        if k > 0 {
            assert(s[k - 1] == t[k - 1]);
        }
        assert(0 <= k <= s.len() && trim_end_spec(s) == s.take(k));
    } else {
        assert(s.take(s.len() as int) =~= s);
        assert(0 <= s.len() <= s.len() && trim_end_spec(s) == s.take(s.len() as int));
    }
}

/// Trimming takes white space off both ends and nothing else: what is left is the text
/// between some white space at the start and some at the end, and has none at its own ends.
pub proof fn law_trim_takes_white_ends(s: &str, r: String)
    requires
        call_ensures(trim, (s,), r),
    ensures
        exists|a: Seq<char>, b: Seq<char>| #[trigger]
            (a + r@ + b) == s@ && (forall|i: int| 0 <= i < a.len() ==> white(#[trigger] a[i])) && (
            forall|i: int| 0 <= i < b.len() ==> white(#[trigger] b[i])),
        r@.len() > 0 ==> !white(r@[0]) && !white(r@.last()),
{
    lemma_trim_start(s@);
    let k = choose|k: int|
        0 <= k <= s@.len() && trim_start_spec(s@) == s@.skip(k) && (forall|i: int|
            0 <= i < k ==> white(#[trigger] s@[i])) && (k < s@.len() ==> !white(s@[k]));
    let t = s@.skip(k);
    lemma_trim_end(t);
    let m = choose|m: int|
        0 <= m <= t.len() && trim_end_spec(t) == t.take(m) && (forall|i: int|
            m <= i < t.len() ==> white(#[trigger] t[i])) && (m > 0 ==> !white(t[m - 1]));
    let (a, b) = (s@.take(k), t.skip(m));
    assert(a + r@ + b =~= s@);
    assert forall|i: int| 0 <= i < b.len() implies white(#[trigger] b[i]) by {
        assert(white(t[m + i]));
    }
    if r@.len() > 0 {
        assert(r@[0] == s@[k]);
        assert(r@.last() == t[m - 1]);
    }
}

/// Of the ASCII characters, the space and those from the tab to the carriage return are
/// white, and no other.
pub proof fn law_white_characters(c: char, r: bool)
    requires
        call_ensures(is_white, (c,), r),
    ensures
        c as u32 <= 127 ==> r == (c == ' ' || c == '\t' || c == '\n' || c == '\r' || c as u32 == 11
            || c as u32 == 12),
        c as u32 > 127 ==> r == seq![
            0x85u32,
            0xA0,
            0x1680,
            0x2000,
            0x2001,
            0x2002,
            0x2003,
            0x2004,
            0x2005,
            0x2006,
            0x2007,
            0x2008,
            0x2009,
            0x200A,
            0x2028,
            0x2029,
            0x202F,
            0x205F,
            0x3000,
        ].contains(c as u32),
{
    let n = c as u32;
    let all = seq![
        0x85u32,
        0xA0,
        0x1680,
        0x2000,
        0x2001,
        0x2002,
        0x2003,
        0x2004,
        0x2005,
        0x2006,
        0x2007,
        0x2008,
        0x2009,
        0x200A,
        0x2028,
        0x2029,
        0x202F,
        0x205F,
        0x3000,
    ];
    if n > 127 && white(c) {
        let i: int = if n == 0x85 {
            0
        } else if n == 0xA0 {
            1
        } else if n == 0x1680 {
            2
        } else if n <= 0x200A {
            3 + (n - 0x2000)
        } else if n == 0x2028 {
            14
        } else if n == 0x2029 {
            15
        } else if n == 0x202F {
            16
        } else if n == 0x205F {
            17
        } else {
            18
        };
        assert(all[i] == n);
    }
}

proof fn lemma_trim_end_char(s: Seq<char>, c: char)
    ensures
        exists|b: Seq<char>| #[trigger]
            (trim_end_char_spec(s, c) + b) == s && forall|i: int|
                0 <= i < b.len() ==> #[trigger] b[i] == c,
        trim_end_char_spec(s, c).len() > 0 ==> trim_end_char_spec(s, c).last() != c,
    decreases s.len(),
{
    if s.len() > 0 && s.last() == c {
        let t = s.drop_last();
        lemma_trim_end_char(t, c);
        let b = choose|b: Seq<char>| #[trigger]
            (trim_end_char_spec(t, c) + b) == t && forall|i: int|
                0 <= i < b.len() ==> #[trigger] b[i] == c;
        assert(trim_end_char_spec(s, c) + b.push(c) =~= (trim_end_char_spec(t, c) + b).push(c));
        assert(t.push(c) =~= s);
    } else {
        assert(trim_end_char_spec(s, c) + Seq::<char>::empty() =~= s);
    }
}

proof fn lemma_trim_start_char(s: Seq<char>, c: char)
    ensures
        exists|a: Seq<char>| #[trigger]
            (a + trim_start_char_spec(s, c)) == s && forall|i: int|
                0 <= i < a.len() ==> #[trigger] a[i] == c,
        trim_start_char_spec(s, c).len() > 0 ==> trim_start_char_spec(s, c)[0] != c,
    decreases s.len(),
{
    if s.len() > 0 && s[0] == c {
        let t = s.drop_first();
        lemma_trim_start_char(t, c);
        let a = choose|a: Seq<char>| #[trigger]
            (a + trim_start_char_spec(t, c)) == t && forall|i: int|
                0 <= i < a.len() ==> #[trigger] a[i] == c;
        let longer = seq![c] + a;
        assert forall|i: int| 0 <= i < longer.len() implies #[trigger] longer[i] == c by {
            if i > 0 {
                assert(longer[i] == a[i - 1]);
            }
        }
        assert(longer + trim_start_char_spec(s, c) =~= seq![c] + (a + trim_start_char_spec(t, c)));
        assert(seq![c] + t =~= s);
    } else {
        assert(Seq::<char>::empty() + trim_start_char_spec(s, c) =~= s);
    }
}

/// Taking a character off an end leaves a text without it there, and the text is what is
/// left with some of that character at the end.
pub proof fn law_trimmed_characters(s: &str, c: char, start: String, end: String)
    requires
        call_ensures(trim_start_char, (s, c), start),
        call_ensures(trim_end_char, (s, c), end),
    ensures
        exists|a: Seq<char>| #[trigger]
            (a + start@) == s@ && forall|i: int| 0 <= i < a.len() ==> #[trigger] a[i] == c,
        start@.len() > 0 ==> start@[0] != c,
        exists|b: Seq<char>| #[trigger]
            (end@ + b) == s@ && forall|i: int| 0 <= i < b.len() ==> #[trigger] b[i] == c,
        end@.len() > 0 ==> end@.last() != c,
{
    lemma_trim_start_char(s@, c);
    lemma_trim_end_char(s@, c);
}

/// A text holds another one where it is that text with something before and behind it.
pub proof fn law_contained_text(s: &str, p: &str, r: bool)
    requires
        call_ensures(contains_text, (s, p), r),
    ensures
        r <==> exists|a: Seq<char>, b: Seq<char>| #[trigger] (a + p@ + b) == s@,
{
    if r {
        let i = choose|i: int| occurs_at(s@, p@, i);
        let (a, b) = (s@.take(i), s@.skip(i + p@.len()));
        assert(a + p@ + b =~= s@);
    }
    if exists|a: Seq<char>, b: Seq<char>| #[trigger] (a + p@ + b) == s@ {
        let (a, b) = choose|a: Seq<char>, b: Seq<char>| #[trigger] (a + p@ + b) == s@;
        let k = a.len() as int;
        assert(s@.subrange(k, k + p@.len()) =~= p@);
        assert(occurs_at(s@, p@, a.len() as int));
    }
}

/// A text stands at a place of another one where all its characters do.
pub proof fn law_text_at_place(s: &[char], p: &[char], i: usize, r: bool)
    requires
        call_ensures(occurs_here, (s, p, i), r),
    ensures
        r <==> i + p@.len() <= s@.len() && forall|j: int|
            0 <= j < p@.len() ==> #[trigger] p@[j] == s@[i + j],
{
    if r {
        assert forall|j: int| 0 <= j < p@.len() implies #[trigger] p@[j] == s@[i + j] by {
            assert(s@.subrange(i as int, i + p@.len())[j] == p@[j]);
        }
    } else if i + p@.len() <= s@.len() {
        if forall|j: int| 0 <= j < p@.len() ==> #[trigger] p@[j] == s@[i + j] {
            assert(s@.subrange(i as int, i + p@.len()) =~= p@);
        }
    }
}

/// In lower case, an ASCII text has each capital letter replaced by the small one; in upper
/// case, each small letter by the capital one. Everything else stays.
pub proof fn law_case_of_letters(s: &str, low: String, up: String)
    requires
        call_ensures(lower, (s,), low),
        call_ensures(upper, (s,), up),
        forall|i: int| 0 <= i < s@.len() ==> (#[trigger] s@[i]) as u32 <= 127,
    ensures
        low@.len() == s@.len(),
        up@.len() == s@.len(),
        forall|i: int|
            0 <= i < s@.len() ==> (#[trigger] low@[i]) as u32 == (if 65 <= s@[i] as u32 <= 90 {
                s@[i] as u32 + 32
            } else {
                s@[i] as int
            }),
        forall|i: int|
            0 <= i < s@.len() ==> (#[trigger] up@[i]) as u32 == (if 97 <= s@[i] as u32 <= 122 {
                s@[i] as u32 - 32
            } else {
                s@[i] as int
            }),
{
    assert(all_ascii(s@));
}

/// A text comes before another one where it is the start of it, or where its character is
/// the lesser one at the first place at which they differ.
pub proof fn law_order_of_texts(a: &str, b: &str, r: bool)
    requires
        call_ensures(is_before, (a, b), r),
    ensures
        r <==> exists|k: int|
            0 <= k <= a@.len() && k < b@.len() && #[trigger] a@.take(k) == b@.take(k) && (k
                == a@.len() || a@[k] < b@[k]),
{
    lemma_text_before(a@, b@);
}

proof fn lemma_text_before(a: Seq<char>, b: Seq<char>)
    ensures
        text_before(a, b) <==> exists|k: int|
            0 <= k <= a.len() && k < b.len() && #[trigger] a.take(k) == b.take(k) && (k == a.len()
                || a[k] < b[k]),
    decreases a.len(),
{
    if text_before(a, b) {
        if a.len() == 0 || a[0] != b[0] {
            assert(a.take(0) =~= b.take(0));
        } else {
            let (x, y) = (a.drop_first(), b.drop_first());
            lemma_text_before(x, y);
            let k = choose|k: int|
                0 <= k <= x.len() && k < y.len() && #[trigger] x.take(k) == y.take(k) && (k
                    == x.len() || x[k] < y[k]);
            assert(a.take(k + 1) =~= seq![a[0]] + x.take(k));
            assert(b.take(k + 1) =~= seq![b[0]] + y.take(k));
            assert(0 <= k + 1 <= a.len() && k + 1 < b.len());
        }
    }
    if exists|k: int|
        0 <= k <= a.len() && k < b.len() && #[trigger] a.take(k) == b.take(k) && (k == a.len()
            || a[k] < b[k]) {
        let k = choose|k: int|
            0 <= k <= a.len() && k < b.len() && #[trigger] a.take(k) == b.take(k) && (k == a.len()
                || a[k] < b[k]);
        if a.len() > 0 && k > 0 {
            assert(a.take(k)[0] == b.take(k)[0]);
            let (x, y) = (a.drop_first(), b.drop_first());
            lemma_text_before(x, y);
            assert(x.take(k - 1) =~= a.take(k).drop_first());
            assert(y.take(k - 1) =~= b.take(k).drop_first());
            assert(0 <= k - 1 <= x.len() && k - 1 < y.len() && x.take(k - 1) == y.take(k - 1));
        }
    }
}

/// The pieces of two texts with a separator between them are those of the first and then those
/// of the second. A text without the separator is one piece.
pub proof fn law_pieces_add_up(x: Seq<char>, y: Seq<char>, sep: char)
    ensures
        split_spec(x + seq![sep] + y, sep) == split_spec(x, sep) + split_spec(y, sep),
        !x.contains(sep) ==> split_spec(x, sep) == seq![x],
    decreases y.len(),
{
    lemma_one_piece(x, sep);
    let all = x + seq![sep] + y;
    if y.len() == 0 {
        assert(all.drop_last() =~= x);
        assert(all.last() == sep);
        assert(split_spec(all, sep) =~= split_spec(x, sep) + split_spec(y, sep));
    } else {
        let t = y.drop_last();
        law_pieces_add_up(x, t, sep);
        lemma_split_nonempty(t, sep);
        assert(all.drop_last() =~= x + seq![sep] + t);
        assert(all.last() == y.last());
        assert(split_spec(all, sep) =~= split_spec(x, sep) + split_spec(y, sep));
    }
}

proof fn lemma_one_piece(x: Seq<char>, sep: char)
    ensures
        !x.contains(sep) ==> split_spec(x, sep) == seq![x],
    decreases x.len(),
{
    if !x.contains(sep) {
        if x.len() == 0 {
            assert(x =~= Seq::<char>::empty());
        } else {
            let t = x.drop_last();
            assert(!t.contains(sep)) by {
                if t.contains(sep) {
                    let k = choose|k: int| 0 <= k < t.len() && t[k] == sep;
                    assert(x[k] == sep);
                }
            }
            lemma_one_piece(t, sep);
            assert(x.contains(x.last())) by {
                assert(x[x.len() - 1] == x.last());
            }
            assert(x.last() != sep);
            let before = split_spec(t, sep);
            assert(before.last() == t);
            assert(before.drop_last() =~= Seq::<Seq<char>>::empty());
            assert(t.push(x.last()) =~= x);
            assert(split_spec(x, sep) == before.drop_last().push(t.push(x.last())));
            assert(split_spec(x, sep) =~= seq![x]);
        }
    }
}

} // verus!
