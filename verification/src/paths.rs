//! Paths: their parts, which of them may be served, and as what.

use crate::numbers::signed_decimal_text;
use crate::text::{
    chars_of, concat2, slice_text, split, str_eq, lower, trim_start_char,
};
use vstd::prelude::*;

verus! {

// ─── Parts of a path ───

/// The place of the last `c` in `s`, or -1.
pub open spec fn last_index(s: Seq<char>, c: char) -> int
    decreases s.len(),
{
    if s.len() == 0 {
        -1
    } else if s.last() == c {
        s.len() - 1
    } else {
        last_index(s.drop_last(), c)
    }
}

proof fn lemma_last_index(s: Seq<char>, c: char)
    ensures
        -1 <= last_index(s, c) < s.len(),
    decreases s.len(),
{
    if s.len() > 0 && s.last() != c {
        lemma_last_index(s.drop_last(), c);
    }
}

/// A path without slashes, and segments that stay in place, at its end.
pub open spec fn without_tail(s: Seq<char>) -> Seq<char>
    decreases s.len(),
{
    if s.len() > 0 && s.last() == '/' {
        without_tail(s.drop_last())
    } else if s.len() >= 2 && s.last() == '.' && s[s.len() - 2] == '/' {
        without_tail(s.drop_last())
    } else {
        s
    }
}

/// The last segment of a path.
pub open spec fn last_segment(s: Seq<char>) -> Seq<char> {
    without_tail(s).skip(last_index(without_tail(s), '/') + 1)
}

/// The path ends in a name, not in a step to another directory.
pub open spec fn has_name(s: Seq<char>) -> bool {
    let n = last_segment(s);
    n.len() > 0 && n != seq!['.'] && n != seq!['.', '.']
}

/// The length of a name without its extension. A dot at the start begins no extension.
pub open spec fn stem_len(name: Seq<char>) -> int {
    if last_index(name, '.') <= 0 {
        name.len() as int
    } else {
        last_index(name, '.')
    }
}

/// The extension of the name at the end of a path, empty where there is none.
pub open spec fn extension(s: Seq<char>) -> Seq<char> {
    let n = last_segment(s);
    if has_name(s) && stem_len(n) < n.len() {
        n.skip(stem_len(n) + 1)
    } else {
        Seq::empty()
    }
}

/// A path with another extension at its name. A path without a name stays as it is.
pub open spec fn replaced_extension(s: Seq<char>, ext: Seq<char>) -> Seq<char> {
    let t = without_tail(s);
    let n = last_segment(s);
    if has_name(s) {
        t.take(t.len() - n.len() + stem_len(n)) + seq!['.'] + ext
    } else {
        s
    }
}

proof fn lemma_last_index_is(s: Seq<char>, c: char, i: int)
    requires
        0 <= i < s.len(),
        s[i] == c,
        forall|k: int| i < k < s.len() ==> s[k] != c,
    ensures
        last_index(s, c) == i,
    decreases s.len(),
{
    if i < s.len() - 1 {
        lemma_last_index_is(s.drop_last(), c, i);
    }
}

proof fn lemma_last_index_bounds(s: Seq<char>, c: char)
    ensures
        forall|k: int| last_index(s, c) < k < s.len() ==> s[k] != c,
        last_index(s, c) >= 0 ==> s[last_index(s, c)] == c,
    decreases s.len(),
{
    if s.len() > 0 && s.last() != c {
        lemma_last_index_bounds(s.drop_last(), c);
        lemma_last_index(s.drop_last(), c);
        assert forall|k: int| last_index(s, c) < k < s.len() implies s[k] != c by {
            if k < s.len() - 1 {
                assert(s.drop_last()[k] == s[k]);
            }
        }
    }
}

proof fn lemma_last_index_none(s: Seq<char>, c: char)
    requires
        forall|k: int| 0 <= k < s.len() ==> s[k] != c,
    ensures
        last_index(s, c) == -1,
    decreases s.len(),
{
    if s.len() > 0 {
        lemma_last_index_none(s.drop_last(), c);
    }
}

/// A path with another extension has that extension, where the extension has no slashes
/// and no dots.
pub proof fn law_extension_is_replaced(s: Seq<char>, ext: Seq<char>)
    requires
        has_name(s),
        ext.len() > 0,
        forall|k: int| 0 <= k < ext.len() ==> ext[k] != '/' && ext[k] != '.',
    ensures
        has_name(replaced_extension(s, ext)),
        extension(replaced_extension(s, ext)) == ext,
{
    let t = without_tail(s);
    let n = last_segment(s);
    lemma_last_index(t, '/');
    lemma_last_index_bounds(t, '/');
    lemma_last_index(n, '.');
    let slash = last_index(t, '/');
    let stem = stem_len(n);
    let r = replaced_extension(s, ext);
    let cut = t.len() - n.len() + stem;
    assert(cut == slash + 1 + stem);
    assert(r.last() == ext.last());
    assert(without_tail(r) == r);
    assert forall|k: int| slash < k < r.len() implies r[k] != '/' by {
        if k < cut {
            assert(r[k] == t[k]);
        } else if k > cut {
            assert(r[k] == ext[k - cut - 1]);
        }
    }
    if slash >= 0 {
        assert(r[slash] == t[slash]);
        lemma_last_index_is(r, '/', slash);
    } else {
        lemma_last_index_none(r, '/');
    }
    let name = last_segment(r);
    assert(name =~= n.take(stem) + seq!['.'] + ext);
    assert forall|k: int| stem < k < name.len() implies name[k] != '.' by {
        assert(name[k] == ext[k - stem - 1]);
    }
    assert(name[stem] == '.');
    lemma_last_index_is(name, '.', stem);
    assert(name.len() >= 3);
    assert(extension(r) =~= ext);
}

/// The place of the last `c` of `v[from..to]`, counted from `from`.
fn find_last(v: &Vec<char>, from: usize, to: usize, c: char) -> (r: Option<usize>)
    requires
        from <= to <= v@.len(),
    ensures
        r is None <==> last_index(v@.subrange(from as int, to as int), c) == -1,
        r is Some ==> r->Some_0 == last_index(v@.subrange(from as int, to as int), c),
        r is Some ==> r->Some_0 < to - from,
{
    let mut i: usize = to;
    while i > from
        invariant
            from <= i <= to <= v@.len(),
            last_index(v@.subrange(from as int, to as int), c) == last_index(
                v@.subrange(from as int, i as int),
                c,
            ),
        decreases i,
    {
        assert(v@.subrange(from as int, i as int).drop_last() =~= v@.subrange(
            from as int,
            i - 1,
        ));
        if v[i - 1] == c {
            return Some(i - 1 - from);
        }
        i -= 1;
    }
    None
}

/// Where the last segment of a path starts, where it ends, and whether it is a name.
fn locate_name(v: &Vec<char>) -> (r: (usize, usize, bool))
    ensures
        r.0 <= r.1 <= v@.len(),
        v@.take(r.1 as int) == without_tail(v@),
        v@.subrange(r.0 as int, r.1 as int) == last_segment(v@),
        r.2 == has_name(v@),
{
    let mut end: usize = v.len();
    assert(v@.take(v@.len() as int) =~= v@);
    while end > 0 && (v[end - 1] == '/' || (end >= 2 && v[end - 1] == '.' && v[end - 2] == '/'))
        invariant
            end <= v@.len(),
            without_tail(v@) == without_tail(v@.take(end as int)),
        decreases end,
    {
        assert(v@.take(end as int).drop_last() =~= v@.take(end - 1));
        end -= 1;
    }
    let ghost t = v@.take(end as int);
    proof {
        assert(without_tail(t) == t);
        assert(v@.subrange(0, end as int) =~= t);
        lemma_last_index(t, '/');
    }
    let start: usize = match find_last(v, 0, end, '/') {
        Some(i) => i + 1,
        None => 0,
    };
    let ghost name = v@.subrange(start as int, end as int);
    assert(name =~= last_segment(v@));
    let n: usize = end - start;
    let dots: bool = (n == 1 && v[start] == '.') || (n == 2 && v[start] == '.' && v[start + 1]
        == '.');
    proof {
        assert(name == seq!['.'] <==> n == 1 && v@[start as int] == '.') by {
            if n == 1 && v@[start as int] == '.' {
                assert(name =~= seq!['.']);
            }
            if name == seq!['.'] {
                assert(name[0] == '.');
            }
        }
        assert(name == seq!['.', '.'] <==> n == 2 && v@[start as int] == '.' && v@[start + 1]
            == '.') by {
            if n == 2 && v@[start as int] == '.' && v@[start + 1] == '.' {
                assert(name =~= seq!['.', '.']);
            }
            if name == seq!['.', '.'] {
                assert(name[0] == '.' && name[1] == '.');
            }
        }
    }
    (start, end, n > 0 && !dots)
}

/// The extension of a file name.
pub fn file_ext(filename: &str) -> (ext: String)
    ensures
        ext@ == extension(filename@),
{
    let v: Vec<char> = chars_of(filename);
    let (start, end, named): (usize, usize, bool) = locate_name(&v);
    if named {
        match find_last(&v, start, end, '.') {
            Some(i) => {
                if i > 0 {
                    let ext: String = slice_text(&v, start + i + 1, end);
                    assert(ext@ =~= extension(filename@));
                    return ext;
                }
            },
            None => {},
        }
    }
    let ext: String = String::new();
    assert(ext@ =~= extension(filename@));
    ext
}

/// The extension of a file name in lower case.
pub fn lower_ext(filename: &str) -> (ext: String)
    ensures
        ext@ == crate::text::lowered(extension(filename@)),
{
    let ext: String = file_ext(filename);
    lower(ext.as_str())
}

/// A path with another extension.
pub fn with_extension(path: &str, ext: &str) -> (r: String)
    ensures
        r@ == replaced_extension(path@, ext@),
{
    let v: Vec<char> = chars_of(path);
    let (start, end, named): (usize, usize, bool) = locate_name(&v);
    if !named {
        return path.to_owned();
    }
    let cut: usize = match find_last(&v, start, end, '.') {
        Some(i) => if i > 0 {
            start + i
        } else {
            end
        },
        None => end,
    };
    let stem: String = slice_text(&v, 0, cut);
    let dotted: String = concat2(stem.as_str(), ".");
    let r: String = concat2(dotted.as_str(), ext);
    proof {
        reveal_strlit(".");
        assert("."@ =~= seq!['.']);
        assert(r@ =~= replaced_extension(path@, ext@));
    }
    r
}

/// The last segment of a path, where it is a name.
pub fn file_name(path: &str) -> (name: Option<String>)
    ensures
        name is Some <==> has_name(path@),
        name is Some ==> name->Some_0@ == last_segment(path@),
{
    let v: Vec<char> = chars_of(path);
    let (start, end, named): (usize, usize, bool) = locate_name(&v);
    if named {
        Some(slice_text(&v, start, end))
    } else {
        None
    }
}

// ─── Paths of requests ───

/// An answer that refuses a request.
#[derive(Debug, Clone)]
pub struct HttpError {
    pub status: u16,
    pub message: String,
}

impl HttpError {
    /// The error has a status and a message.
    pub open spec fn is(self, status: u16, message: Seq<char>) -> bool {
        self.status == status && self.message@ == message
    }

    pub fn new(status: u16, message: &str) -> (e: Self)
        ensures
            e.is(status, message@),
    {
        HttpError { status, message: message.to_owned() }
    }
}

/// What a base directory holds for a request.
pub enum Probe {
    /// There is nothing at the path.
    Missing,
    /// There is something, but the base has no canonical path.
    BaseInvalid,
    /// There is something, but it has no canonical path.
    FileInvalid,
    /// There is something; the canonical paths of the base and of it.
    Found { base: String, file: String },
}

/// The segments of a path.
pub open spec fn segments(path: Seq<char>) -> Seq<Seq<char>> {
    crate::text::split_spec(path, '/').filter(|s: Seq<char>| s.len() > 0)
}

/// The first is the path of a directory, the second of something in it, at any depth, or
/// of itself.
pub open spec fn is_under(base: Seq<char>, file: Seq<char>) -> bool {
    segments(base).is_prefix_of(segments(file))
}

fn segments_of(path: &str) -> (r: Vec<String>)
    ensures
        crate::text::texts(r@) == segments(path@),
{
    let pieces: Vec<String> = split(path, '/');
    let ghost keep = |s: Seq<char>| s.len() > 0;
    let mut r: Vec<String> = Vec::new();
    let ghost all = crate::text::texts(pieces@);
    proof {
        reveal(Seq::filter);
        assert(all.take(0).filter(keep) =~= Seq::empty());
        assert(crate::text::texts(r@) =~= Seq::empty());
    }
    for i in 0..pieces.len()
        invariant
            all == crate::text::texts(pieces@),
            keep == (|s: Seq<char>| s.len() > 0),
            crate::text::texts(r@) == all.take(i as int).filter(keep),
    {
        let ghost before = r@;
        proof {
            reveal(Seq::filter);
            assert(all.take(i + 1).drop_last() =~= all.take(i as int));
            assert(all.take(i + 1).last() == pieces@[i as int]@);
        }
        if !str_eq(pieces[i].as_str(), "") {
            proof {
                reveal_strlit("");
                if pieces@[i as int]@.len() == 0 {
                    assert(pieces@[i as int]@ =~= ""@);
                }
            }
            r.push(pieces[i].as_str().to_owned());
            assert(crate::text::texts(r@) =~= crate::text::texts(before).push(
                pieces@[i as int]@,
            ));
        } else {
            proof {
                reveal_strlit("");
            }
        }
    }
    assert(all.take(all.len() as int) =~= all);
    r
}

/// Tells whether something lies in a directory.
pub fn path_is_under(base: &str, file: &str) -> (r: bool)
    ensures
        r == is_under(base@, file@),
{
    let a: Vec<String> = segments_of(base);
    let b: Vec<String> = segments_of(file);
    let ghost sa = segments(base@);
    let ghost sb = segments(file@);
    if a.len() > b.len() {
        assert(sa.len() > sb.len());
        return false;
    }
    for i in 0..a.len()
        invariant
            a@.len() <= b@.len(),
            sa == segments(base@),
            sb == segments(file@),
            crate::text::texts(a@) == sa,
            crate::text::texts(b@) == sb,
            forall|j: int| 0 <= j < i ==> #[trigger] sa[j] == sb[j],
    {
        assert(sa[i as int] == a@[i as int]@);
        assert(sb[i as int] == b@[i as int]@);
        if !str_eq(a[i].as_str(), b[i].as_str()) {
            assert(sb.take(sa.len() as int)[i as int] == sb[i as int]);
            return false;
        }
    }
    assert(sa =~= sb.take(sa.len() as int));
    true
}

/// A path leaves its directory: a segment goes up.
pub open spec fn goes_up(path: Seq<char>) -> bool {
    crate::text::split_spec(path, '/').contains(seq!['.', '.'])
}

/// A segment of the path goes up.
pub fn path_goes_up(path: &str) -> (r: bool)
    ensures
        r == goes_up(path@),
{
    let pieces: Vec<String> = split(path, '/');
    let ghost all = crate::text::split_spec(path@, '/');
    proof {
        reveal_strlit("..");
        assert(".."@ =~= seq!['.', '.']);
    }
    for i in 0..pieces.len()
        invariant
            all == crate::text::split_spec(path@, '/'),
            crate::text::texts(pieces@) == all,
            ".."@ == seq!['.', '.'],
            forall|j: int| 0 <= j < i ==> #[trigger] all[j] != seq!['.', '.'],
    {
        assert(all[i as int] == pieces@[i as int]@);
        if str_eq(pieces[i].as_str(), "..") {
            return true;
        }
    }
    false
}

/// A base directory decides about a request: it has an answer, or leaves it to the next.
pub open spec fn decides(probe: Probe) -> bool {
    match probe {
        Probe::Missing => false,
        Probe::BaseInvalid => true,
        Probe::FileInvalid => true,
        Probe::Found { base, file } => is_under(base@, file@),
    }
}

/// The path of a file that a request may have. `probes` tells, for each base directory
/// in turn, what it holds for the request: the first one that decides is the answer.
pub fn validate_path(filename: &str, probes: &Vec<Probe>) -> (path: Result<String, HttpError>)
    ensures
        filename@.len() > 0 && filename@[0] == '/' ==> path is Err && path->Err_0.is(
            400,
            "Absolute path not allowed"@,
        ),
        !(filename@.len() > 0 && filename@[0] == '/') && goes_up(filename@) ==> path is Err
            && path->Err_0.is(400, "Path traversal detected"@),
        !(filename@.len() > 0 && filename@[0] == '/') && !goes_up(filename@) ==> {
            ||| exists|i: int| #[trigger]
                answers(probes@, i) && (match probes@[i] {
                    Probe::Missing => false,
                    Probe::BaseInvalid => path is Err && path->Err_0.is(
                        500,
                        "Invalid base directory"@,
                    ),
                    Probe::FileInvalid => path is Err && path->Err_0.is(
                        404,
                        "File not found: "@ + filename@,
                    ),
                    Probe::Found { base, file } => path is Ok && path->Ok_0@ == file@,
                })
            ||| (forall|i: int| 0 <= i < probes@.len() ==> !decides(#[trigger] probes@[i]))
                && path is Err && path->Err_0.is(404, "File not found: "@ + filename@)
        },
{
    let v: Vec<char> = chars_of(filename);
    if v.len() > 0 && v[0] == '/' {
        return Err(HttpError::new(400, "Absolute path not allowed"));
    }
    if path_goes_up(filename) {
        return Err(HttpError::new(400, "Path traversal detected"));
    }
    let message: String = concat2("File not found: ", filename);
    for i in 0..probes.len()
        invariant
            v@ == filename@,
            !(filename@.len() > 0 && filename@[0] == '/') && !goes_up(filename@),
            message@ == "File not found: "@ + filename@,
            forall|j: int| 0 <= j < i ==> !decides(#[trigger] probes@[j]),
    {
        match &probes[i] {
            Probe::Missing => {},
            Probe::BaseInvalid => {
                assert(answers(probes@, i as int));
                return Err(HttpError::new(500, "Invalid base directory"));
            },
            Probe::FileInvalid => {
                assert(answers(probes@, i as int));
                return Err(HttpError::new(404, message.as_str()));
            },
            Probe::Found { base, file } => {
                if path_is_under(base.as_str(), file.as_str()) {
                    assert(answers(probes@, i as int));
                    return Ok(file.as_str().to_owned());
                }
            },
        }
    }
    Err(HttpError::new(404, message.as_str()))
}

/// Directory `i` is the first that decides.
pub open spec fn answers(probes: Seq<Probe>, i: int) -> bool {
    &&& 0 <= i < probes.len()
    &&& decides(probes[i])
    &&& forall|j: int| 0 <= j < i ==> !decides(#[trigger] probes[j])
}

/// No request is answered with a path outside of the base directory that answers it.
pub proof fn law_served_files_are_inside(probes: Seq<Probe>, i: int)
    requires
        answers(probes, i),
        probes[i] is Found,
    ensures
        is_under(probes[i]->base@, probes[i]->file@),
{
}

/// A directory contains itself, and what lies in a directory of it.
pub proof fn law_under_is_an_order(a: Seq<char>, b: Seq<char>, c: Seq<char>)
    ensures
        is_under(a, a),
        is_under(a, b) && is_under(b, c) ==> is_under(a, c),
{
    assert(segments(a).take(segments(a).len() as int) =~= segments(a));
    if is_under(a, b) && is_under(b, c) {
        assert(segments(c).take(segments(a).len() as int) =~= segments(a)) by {
            let n = segments(a).len() as int;
            assert forall|k: int| 0 <= k < n implies segments(c)[k] == segments(a)[k] by {
                assert(segments(b)[k] == segments(b).take(n)[k]);
                assert(segments(c)[k] == segments(c).take(segments(b).len() as int)[k]);
            }
        }
    }
}

/// A path has a segment that starts with a dot.
pub open spec fn has_dotfile(path: Seq<char>) -> bool {
    exists|i: int|
        0 <= i < crate::text::split_spec(path, '/').len() && starts_with_dot(
            #[trigger] crate::text::split_spec(path, '/')[i],
        )
}

pub open spec fn starts_with_dot(s: Seq<char>) -> bool {
    s.len() > 0 && s[0] == '.'
}

/// A segment of the path of a request starts with a dot: such a file is not served where
/// hidden files are filtered.
pub fn filter_dotfiles(path: &str) -> (hidden: bool)
    ensures
        hidden == has_dotfile(path@),
{
    let pieces: Vec<String> = split(path, '/');
    let ghost all = crate::text::split_spec(path@, '/');
    for i in 0..pieces.len()
        invariant
            all == crate::text::split_spec(path@, '/'),
            crate::text::texts(pieces@) == all,
            forall|j: int| 0 <= j < i ==> !starts_with_dot(#[trigger] all[j]),
    {
        assert(all[i as int] == pieces@[i as int]@);
        let piece: Vec<char> = chars_of(pieces[i].as_str());
        if piece.len() > 0 && piece[0] == '.' {
            return true;
        }
    }
    false
}

/// The header that tells how long an answer may be kept: for a success and for one that
/// was not modified, unless the age is negative.
pub fn set_cache_header(max_age: i64, status: u16) -> (value: Option<String>)
    ensures
        value is Some <==> max_age >= 0 && (200 <= status < 300 || status == 304),
        value is Some ==> value->Some_0@ == "public, max-age="@ + crate::numbers::signed_decimal(
            max_age as int,
        ),
{
    if max_age >= 0 && ((200 <= status && status < 300) || status == 304) {
        let age: String = signed_decimal_text(max_age);
        Some(concat2("public, max-age=", age.as_str()))
    } else {
        None
    }
}

/// What follows the last dot of a path, or the path where it has no dot.
pub open spec fn after_last_dot(path: Seq<char>) -> Seq<char> {
    path.skip(last_index(path, '.') + 1)
}

/// The media type for an extension in lower case.
pub open spec fn media_type(ext: Seq<char>) -> Seq<char> {
    if ext == "html"@ {
        "text/html"@
    } else if ext == "js"@ {
        "application/javascript"@
    } else if ext == "css"@ {
        "text/css"@
    } else if ext == "png"@ {
        "image/png"@
    } else if ext == "jpg"@ || ext == "jpeg"@ {
        "image/jpeg"@
    } else if ext == "gif"@ {
        "image/gif"@
    } else if ext == "svg"@ {
        "image/svg+xml"@
    } else if ext == "json"@ {
        "application/json"@
    } else if ext == "xml"@ {
        "application/xml"@
    } else if ext == "tif"@ || ext == "tiff"@ {
        "image/tiff"@
    } else if ext == "geojson"@ {
        "application/geo+json"@
    } else if ext == "webp"@ {
        "image/webp"@
    } else if ext == "ico"@ {
        "image/x-icon"@
    } else if ext == "woff2"@ {
        "font/woff2"@
    } else {
        "application/octet-stream"@
    }
}

/// The media type of a file, by its extension.
pub fn mime_type(path: &str) -> (mime: &'static str)
    ensures
        mime@ == media_type(crate::text::lowered(after_last_dot(path@))),
{
    let v: Vec<char> = chars_of(path);
    assert(v@.subrange(0, v@.len() as int) =~= path@);
    proof {
        lemma_last_index(path@, '.');
    }
    let from: usize = match find_last(&v, 0, v.len(), '.') {
        Some(i) => i + 1,
        None => 0,
    };
    let tail: String = slice_text(&v, from, v.len());
    assert(tail@ =~= after_last_dot(path@));
    let lower: String = lower(tail.as_str());
    let ext: &str = lower.as_str();
    if str_eq(ext, "html") {
        "text/html"
    } else if str_eq(ext, "js") {
        "application/javascript"
    } else if str_eq(ext, "css") {
        "text/css"
    } else if str_eq(ext, "png") {
        "image/png"
    } else if str_eq(ext, "jpg") || str_eq(ext, "jpeg") {
        "image/jpeg"
    } else if str_eq(ext, "gif") {
        "image/gif"
    } else if str_eq(ext, "svg") {
        "image/svg+xml"
    } else if str_eq(ext, "json") {
        "application/json"
    } else if str_eq(ext, "xml") {
        "application/xml"
    } else if str_eq(ext, "tif") || str_eq(ext, "tiff") {
        "image/tiff"
    } else if str_eq(ext, "geojson") {
        "application/geo+json"
    } else if str_eq(ext, "webp") {
        "image/webp"
    } else if str_eq(ext, "ico") {
        "image/x-icon"
    } else if str_eq(ext, "woff2") {
        "font/woff2"
    } else {
        "application/octet-stream"
    }
}

/// What a directory of static files holds for a request.
#[derive(Debug, Clone, Copy, PartialEq, Eq, Structural)]
pub enum StaticProbe {
    /// A file that can be read.
    File,
    /// A directory with an index page that can be read.
    Index,
    /// Neither, or what is there cannot be read.
    Nothing,
}

/// How a request that no route takes is answered.
#[derive(Debug, Clone, Copy, PartialEq, Eq, Structural)]
pub enum StaticAnswer {
    /// The request leaves its directory.
    BadRequest,
    /// The file in the directory with this number.
    File(usize),
    /// The index page in the directory with this number.
    Index(usize),
    NotFound,
}

/// The path of a request below a directory of static files.
pub fn static_path(path: &str) -> (clean: String)
    ensures
        clean@ == crate::text::trim_start_char_spec(path@, '/'),
{
    trim_start_char(path, '/')
}

/// Answers a request that no route takes from the first directory of static files that
/// has something for it.
pub fn fallback_handler(path: &str, probes: &Vec<StaticProbe>) -> (answer: StaticAnswer)
    ensures
        goes_up(crate::text::trim_start_char_spec(path@, '/')) ==> answer
            == StaticAnswer::BadRequest,
        !goes_up(crate::text::trim_start_char_spec(path@, '/')) ==> match answer {
            StaticAnswer::BadRequest => false,
            StaticAnswer::File(i) => i < probes@.len() && probes@[i as int] == StaticProbe::File
                && forall|j: int| 0 <= j < i ==> #[trigger] probes@[j] == StaticProbe::Nothing,
            StaticAnswer::Index(i) => i < probes@.len() && probes@[i as int] == StaticProbe::Index
                && forall|j: int| 0 <= j < i ==> #[trigger] probes@[j] == StaticProbe::Nothing,
            StaticAnswer::NotFound => forall|j: int|
                0 <= j < probes@.len() ==> #[trigger] probes@[j] == StaticProbe::Nothing,
        },
{
    let clean: String = static_path(path);
    if path_goes_up(clean.as_str()) {
        return StaticAnswer::BadRequest;
    }
    for i in 0..probes.len()
        invariant
            !goes_up(crate::text::trim_start_char_spec(path@, '/')),
            forall|j: int| 0 <= j < i ==> #[trigger] probes@[j] == StaticProbe::Nothing,
    {
        match probes[i] {
            StaticProbe::File => {
                return StaticAnswer::File(i);
            },
            StaticProbe::Index => {
                return StaticAnswer::Index(i);
            },
            StaticProbe::Nothing => {},
        }
    }
    StaticAnswer::NotFound
}

/// The media type of an answer from the static files.
pub fn static_type(path: &str, answer: StaticAnswer) -> (mime: &'static str)
    ensures
        mime@ == (match answer {
            StaticAnswer::Index(_) => "text/html"@,
            _ => media_type(crate::text::lowered(after_last_dot(path@))),
        }),
{
    match answer {
        StaticAnswer::Index(_) => "text/html",
        _ => mime_type(path),
    }
}

/// The sum of the sizes of files.
pub open spec fn sum_of(sizes: Seq<u64>) -> nat
    decreases sizes.len(),
{
    if sizes.len() == 0 {
        0
    } else {
        sum_of(sizes.drop_last()) + sizes.last() as nat
    }
}

/// The bytes of a directory, from the sizes of the files in it and below it.
pub fn directory_size_bytes(sizes: &Vec<u64>) -> (total: u64)
    requires
        sum_of(sizes@) <= u64::MAX,
    ensures
        total == sum_of(sizes@),
{
    let mut total: u64 = 0;
    for i in 0..sizes.len()
        invariant
            sum_of(sizes@) <= u64::MAX,
            total == sum_of(sizes@.take(i as int)),
    {
        assert(sizes@.take(i + 1).drop_last() =~= sizes@.take(i as int));
        proof {
            lemma_sum_grows(sizes@, i + 1);
        }
        total += sizes[i];
    }
    assert(sizes@.take(sizes@.len() as int) =~= sizes@);
    total
}

proof fn lemma_sum_grows(sizes: Seq<u64>, n: int)
    requires
        0 <= n <= sizes.len(),
    ensures
        sum_of(sizes.take(n)) <= sum_of(sizes),
    decreases sizes.len() - n,
{
    if n < sizes.len() {
        lemma_sum_grows(sizes, n + 1);
        assert(sizes.take(n + 1).drop_last() =~= sizes.take(n));
    } else {
        assert(sizes.take(n) =~= sizes);
    }
}

/// Extensions of raster files.
pub open spec fn raster_ext(ext: Seq<char>) -> bool {
    ext == "tif"@ || ext == "tiff"@
}

/// Extensions of vector files.
pub open spec fn vector_ext(ext: Seq<char>) -> bool {
    ext == "geojson"@ || ext == "json"@ || ext == "shp"@ || ext == "wkt"@ || ext == "kml"@ || ext
        == "kmz"@
}

/// Tells whether files with an extension are rasters.
pub fn is_raster_ext(ext: &str) -> (r: bool)
    ensures
        r == raster_ext(ext@),
{
    str_eq(ext, "tif") || str_eq(ext, "tiff")
}

/// Tells whether files with an extension hold vector data.
pub fn is_vector_ext(ext: &str) -> (r: bool)
    ensures
        r == vector_ext(ext@),
{
    str_eq(ext, "geojson") || str_eq(ext, "json") || str_eq(ext, "shp") || str_eq(ext, "wkt")
        || str_eq(ext, "kml") || str_eq(ext, "kmz")
}

/// No file is both a raster and vector data.
pub proof fn law_file_kinds_are_disjoint(ext: Seq<char>)
    ensures
        !(raster_ext(ext) && vector_ext(ext)),
{
    reveal_strlit("tif");
    reveal_strlit("tiff");
    reveal_strlit("geojson");
    reveal_strlit("json");
    reveal_strlit("shp");
    reveal_strlit("wkt");
    reveal_strlit("kml");
    reveal_strlit("kmz");
    assert(raster_ext(ext) ==> ext[0] == 't');
    assert(vector_ext(ext) ==> ext[0] != 't');
}

// ─── What holds of paths ───

/// A directory at the start of a path: nothing, or a text that ends with a slash.
pub open spec fn is_dir_part(d: Seq<char>) -> bool {
    d.len() == 0 || d.last() == '/'
}

/// The name of a file is what follows the directory.
pub proof fn lemma_name_at_end(path: Seq<char>, d: Seq<char>, name: Seq<char>)
    requires
        path == d + name,
        is_dir_part(d),
        name.len() > 0,
        !name.contains('/'),
        name.last() != '.',
    ensures
        without_tail(path) == path,
        last_segment(path) == name,
        has_name(path),
{
    assert(path.last() == name.last());
    assert(name[name.len() - 1] == name.last());
    assert(name.contains(name.last()));
    assert(without_tail(path) == path);
    assert forall|k: int| d.len() <= k < path.len() implies path[k] != '/' by {
        assert(path[k] == name[k - d.len()]);
        assert(name.contains(name[k - d.len()]));
    }
    if d.len() > 0 {
        assert(path[d.len() - 1] == d.last());
        lemma_last_index_is(path, '/', d.len() - 1);
    } else {
        lemma_last_index_none(path, '/');
    }
    assert(last_segment(path) =~= name);
    if name == seq!['.'] {
        assert(name.last() == '.');
    }
    if name == seq!['.', '.'] {
        assert(name.last() == '.');
    }
}

/// The extension of a file is what follows the last dot of its name, where something stands
/// before the dot; another extension takes its place and nothing else changes. The name of the
/// file is what follows the last slash.
pub proof fn law_extensions_of_files(
    path: &str,
    ext: &str,
    d: Seq<char>,
    stem: Seq<char>,
    tail: Seq<char>,
    found: String,
    changed: String,
    name: Option<String>,
)
    requires
        call_ensures(file_ext, (path,), found),
        call_ensures(with_extension, (path, ext), changed),
        call_ensures(file_name, (path,), name),
        path@ == d + (stem + seq!['.'] + tail),
        is_dir_part(d),
        stem.len() > 0,
        !stem.contains('/'),
        tail.len() > 0,
        !tail.contains('/'),
        !tail.contains('.'),
    ensures
        found@ == tail,
        changed@ == d + (stem + seq!['.'] + ext@),
        name is Some && name->Some_0@ == stem + seq!['.'] + tail,
{
    let n = stem + seq!['.'] + tail;
    assert(n.last() == tail.last());
    assert(tail.contains(tail.last())) by {
        assert(tail[tail.len() - 1] == tail.last());
    }
    assert(!n.contains('/')) by {
        if n.contains('/') {
            let k = choose|k: int| 0 <= k < n.len() && n[k] == '/';
            if k < stem.len() {
                assert(stem[k] == '/');
            } else if k > stem.len() {
                assert(tail[k - stem.len() - 1] == '/');
            }
        }
    }
    lemma_name_at_end(path@, d, n);
    let at = stem.len() as int;
    assert(n[at] == '.');
    assert forall|k: int| at < k < n.len() implies n[k] != '.' by {
        assert(n[k] == tail[k - at - 1]);
        assert(tail.contains(n[k]));
    }
    lemma_last_index_is(n, '.', at);
    assert(n.skip(at + 1) =~= tail);
    let t = path@;
    assert(t.take(t.len() - n.len() + at) =~= d + stem);
    assert((d + stem) + seq!['.'] + ext@ =~= d + (stem + seq!['.'] + ext@));
}

/// A file without a dot in its name, but for one at the start, has no extension, and another one
/// is added behind its name.
pub proof fn law_files_without_extension(
    path: &str,
    ext: &str,
    d: Seq<char>,
    stem: Seq<char>,
    found: String,
    changed: String,
    name: Option<String>,
)
    requires
        call_ensures(file_ext, (path,), found),
        call_ensures(with_extension, (path, ext), changed),
        call_ensures(file_name, (path,), name),
        path@ == d + stem,
        is_dir_part(d),
        stem.len() > 0,
        !stem.contains('/'),
        forall|k: int| 1 <= k < stem.len() ==> stem[k] != '.',
        stem.len() == 1 ==> stem[0] != '.',
    ensures
        found@.len() == 0,
        changed@ == d + stem + seq!['.'] + ext@,
        name is Some && name->Some_0@ == stem,
{
    assert(stem.last() != '.') by {
        assert(stem.last() == stem[stem.len() - 1]);
    }
    lemma_name_at_end(path@, d, stem);
    if stem[0] == '.' {
        lemma_last_index_is(stem, '.', 0);
    } else {
        lemma_last_index_none(stem, '.');
    }
    let t = path@;
    assert(t.take(t.len() as int) =~= d + stem);
}

/// The steps of a path: what stands between slashes, without what is empty.
pub open spec fn steps(path: Seq<char>) -> Seq<Seq<char>> {
    crate::text::split_spec(path, '/').filter(|s: Seq<char>| s.len() > 0)
}

/// Something lies in a directory where its steps begin with those of the directory. So does
/// whatever follows a slash behind the path of the directory.
pub proof fn law_what_lies_in_a_directory(base: &str, file: &str, r: bool, x: Seq<char>)
    requires
        call_ensures(path_is_under, (base, file), r),
    ensures
        r <==> exists|rest: Seq<Seq<char>>| #[trigger] (steps(base@) + rest) == steps(file@),
        file@ == base@ + seq!['/'] + x ==> r,
{
    let (a, b) = (steps(base@), steps(file@));
    assert(a == segments(base@) && b == segments(file@));
    if r {
        assert(a + b.skip(a.len() as int) =~= b);
    }
    if exists|rest: Seq<Seq<char>>| #[trigger] (a + rest) == b {
        let rest = choose|rest: Seq<Seq<char>>| #[trigger] (a + rest) == b;
        assert(b.take(a.len() as int) =~= a);
    }
    if file@ == base@ + seq!['/'] + x {
        crate::text::law_pieces_add_up(base@, x, '/');
        let keep = |s: Seq<char>| s.len() > 0;
        let (p, q) = (
            crate::text::split_spec(base@, '/'),
            crate::text::split_spec(x, '/'),
        );
        Seq::filter_distributes_over_add(p, q, keep);
        assert(b == a + q.filter(keep));
        assert(b.take(a.len() as int) =~= a);
    }
}

/// A path goes up where some piece between its slashes is two dots.
pub proof fn law_paths_that_go_up(path: &str, r: bool, x: Seq<char>, y: Seq<char>)
    requires
        call_ensures(path_goes_up, (path,), r),
    ensures
        r <==> crate::text::split_spec(path@, '/').contains(seq!['.', '.']),
        path@ == seq!['.', '.'] ==> r,
        path@ == x + seq!['/'] + (seq!['.', '.'] + seq!['/'] + y) ==> r,
        path@ == x + seq!['/'] + seq!['.', '.'] ==> r,
        path@ == seq!['.', '.'] + seq!['/'] + y ==> r,
{
    let up = seq!['.', '.'];
    assert(!up.contains('/'));
    crate::text::law_pieces_add_up(up, y, '/');
    crate::text::law_pieces_add_up(x, up + seq!['/'] + y, '/');
    crate::text::law_pieces_add_up(x, up, '/');
    let p = crate::text::split_spec(x, '/');
    let q = crate::text::split_spec(y, '/');
    let n = p.len() as int;
    assert(seq![up][0] == up);
    assert((seq![up] + q)[0] == up);
    assert((p + (seq![up] + q))[n] == up);
    assert((p + seq![up])[n] == up);
}

/// A request is answered with a file only where it does not start with a slash, no piece of it
/// goes up, and the file lies in a directory that has it, the first that does. A request that
/// starts with a slash, or goes up, is refused.
pub proof fn law_requests_for_files(
    filename: &str,
    probes: &Vec<Probe>,
    path: Result<String, HttpError>,
)
    requires
        call_ensures(validate_path, (filename, probes), path),
    ensures
        filename@.len() > 0 && filename@[0] == '/' ==> path is Err && path->Err_0.status == 400,
        crate::text::split_spec(filename@, '/').contains(seq!['.', '.']) ==> path is Err
            && path->Err_0.status == 400,
        path is Ok ==> {
            &&& !(filename@.len() > 0 && filename@[0] == '/')
            &&& !crate::text::split_spec(filename@, '/').contains(seq!['.', '.'])
            &&& exists|i: int|
                0 <= i < probes@.len() && (#[trigger] probes@[i] matches Probe::Found { base, file }
                    && file@ == path->Ok_0@ && exists|rest: Seq<Seq<char>>| #[trigger]
                    (steps(base@) + rest) == steps(file@))
        },
        !(filename@.len() > 0 && filename@[0] == '/') && !crate::text::split_spec(
            filename@,
            '/',
        ).contains(seq!['.', '.']) && path is Err ==> {
            ||| path->Err_0.status == 404
            ||| path->Err_0.status == 500 && exists|i: int|
                0 <= i < probes@.len() && (#[trigger] probes@[i]) is BaseInvalid
        },
        !(filename@.len() > 0 && filename@[0] == '/') && !crate::text::split_spec(
            filename@,
            '/',
        ).contains(seq!['.', '.']) && probes@.len() > 0 && (probes@[0] matches Probe::Found {
            base,
            file,
        } && (steps(base@) + steps(file@).skip(steps(base@).len() as int)) == steps(file@))
            ==> path is Ok && path->Ok_0@ == probes@[0]->file@,
{
    let name = filename@;
    if path is Ok {
        let i = choose|i: int| #[trigger]
            answers(probes@, i) && (match probes@[i] {
                Probe::Missing => false,
                Probe::BaseInvalid => path is Err && path->Err_0.is(
                    500,
                    "Invalid base directory"@,
                ),
                Probe::FileInvalid => path is Err && path->Err_0.is(
                    404,
                    "File not found: "@ + filename@,
                ),
                Probe::Found { base, file } => path is Ok && path->Ok_0@ == file@,
            });
        match probes@[i] {
            Probe::Found { base, file } => {
                let (a, b) = (steps(base@), steps(file@));
                assert(a == segments(base@) && b == segments(file@));
                assert(a + b.skip(a.len() as int) =~= b);
            },
            _ => {},
        }
    }
    if probes@.len() > 0 {
        match probes@[0] {
            Probe::Found { base, file } => {
                let (a, b) = (steps(base@), steps(file@));
                assert(a == segments(base@) && b == segments(file@));
                if a + b.skip(a.len() as int) == b {
                    assert(b.take(a.len() as int) =~= a);
                    assert(decides(probes@[0]));
                }
            },
            _ => {},
        }
    }
}

/// A path is hidden where some piece between its slashes starts with a dot.
pub proof fn law_hidden_paths(path: &str, hidden: bool)
    requires
        call_ensures(filter_dotfiles, (path,), hidden),
    ensures
        hidden <==> exists|i: int|
            0 <= i < crate::text::split_spec(path@, '/').len() && (
            #[trigger] crate::text::split_spec(path@, '/')[i]).len() > 0
                && crate::text::split_spec(path@, '/')[i][0] == '.',
{
    let all = crate::text::split_spec(path@, '/');
    if hidden {
        let i = choose|i: int| 0 <= i < all.len() && starts_with_dot(#[trigger] all[i]);
        assert(all[i].len() > 0);
    }
    if exists|i: int| 0 <= i < all.len() && (#[trigger] all[i]).len() > 0 && all[i][0] == '.' {
        let i = choose|i: int| 0 <= i < all.len() && (#[trigger] all[i]).len() > 0 && all[i][0] == '.';
        assert(starts_with_dot(all[i]));
    }
}

/// The extensions with a media type differ.
proof fn lemma_extensions_differ(e: Seq<char>)
    ensures
        e == "js"@ ==> e != "html"@,
        e == "css"@ ==> e != "html"@
            && e != "js"@,
        e == "png"@ ==> e != "html"@
            && e != "js"@
            && e != "css"@,
        e == "jpg"@ ==> e != "html"@
            && e != "js"@
            && e != "css"@
            && e != "png"@,
        e == "jpeg"@ ==> e != "html"@
            && e != "js"@
            && e != "css"@
            && e != "png"@
            && e != "jpg"@,
        e == "gif"@ ==> e != "html"@
            && e != "js"@
            && e != "css"@
            && e != "png"@
            && e != "jpg"@
            && e != "jpeg"@,
        e == "svg"@ ==> e != "html"@
            && e != "js"@
            && e != "css"@
            && e != "png"@
            && e != "jpg"@
            && e != "jpeg"@
            && e != "gif"@,
        e == "json"@ ==> e != "html"@
            && e != "js"@
            && e != "css"@
            && e != "png"@
            && e != "jpg"@
            && e != "jpeg"@
            && e != "gif"@
            && e != "svg"@,
        e == "xml"@ ==> e != "html"@
            && e != "js"@
            && e != "css"@
            && e != "png"@
            && e != "jpg"@
            && e != "jpeg"@
            && e != "gif"@
            && e != "svg"@
            && e != "json"@,
        e == "tif"@ ==> e != "html"@
            && e != "js"@
            && e != "css"@
            && e != "png"@
            && e != "jpg"@
            && e != "jpeg"@
            && e != "gif"@
            && e != "svg"@
            && e != "json"@
            && e != "xml"@,
        e == "tiff"@ ==> e != "html"@
            && e != "js"@
            && e != "css"@
            && e != "png"@
            && e != "jpg"@
            && e != "jpeg"@
            && e != "gif"@
            && e != "svg"@
            && e != "json"@
            && e != "xml"@
            && e != "tif"@,
        e == "geojson"@ ==> e != "html"@
            && e != "js"@
            && e != "css"@
            && e != "png"@
            && e != "jpg"@
            && e != "jpeg"@
            && e != "gif"@
            && e != "svg"@
            && e != "json"@
            && e != "xml"@
            && e != "tif"@
            && e != "tiff"@,
        e == "webp"@ ==> e != "html"@
            && e != "js"@
            && e != "css"@
            && e != "png"@
            && e != "jpg"@
            && e != "jpeg"@
            && e != "gif"@
            && e != "svg"@
            && e != "json"@
            && e != "xml"@
            && e != "tif"@
            && e != "tiff"@
            && e != "geojson"@,
        e == "ico"@ ==> e != "html"@
            && e != "js"@
            && e != "css"@
            && e != "png"@
            && e != "jpg"@
            && e != "jpeg"@
            && e != "gif"@
            && e != "svg"@
            && e != "json"@
            && e != "xml"@
            && e != "tif"@
            && e != "tiff"@
            && e != "geojson"@
            && e != "webp"@,
        e == "woff2"@ ==> e != "html"@
            && e != "js"@
            && e != "css"@
            && e != "png"@
            && e != "jpg"@
            && e != "jpeg"@
            && e != "gif"@
            && e != "svg"@
            && e != "json"@
            && e != "xml"@
            && e != "tif"@
            && e != "tiff"@
            && e != "geojson"@
            && e != "webp"@
            && e != "ico"@,
{
    reveal_strlit("html");
    reveal_strlit("js");
    reveal_strlit("css");
    reveal_strlit("png");
    reveal_strlit("jpg");
    reveal_strlit("jpeg");
    reveal_strlit("gif");
    reveal_strlit("svg");
    reveal_strlit("json");
    reveal_strlit("xml");
    reveal_strlit("tif");
    reveal_strlit("tiff");
    reveal_strlit("geojson");
    reveal_strlit("webp");
    reveal_strlit("ico");
    reveal_strlit("woff2");
    if e == "js"@ {
        assert(e.len() == 2 && e[0] == 'j' && e[1] == 's');
        assert("html"@.len() == 4);
    }
    if e == "css"@ {
        assert(e.len() == 3 && e[0] == 'c' && e[1] == 's' && e[2] == 's');
        assert("html"@.len() == 4);
        assert("js"@.len() == 2);
    }
    if e == "png"@ {
        assert(e.len() == 3 && e[0] == 'p' && e[1] == 'n' && e[2] == 'g');
        assert("html"@.len() == 4);
        assert("js"@.len() == 2);
        assert("css"@[0] == 'c');
    }
    if e == "jpg"@ {
        assert(e.len() == 3 && e[0] == 'j' && e[1] == 'p' && e[2] == 'g');
        assert("html"@.len() == 4);
        assert("js"@.len() == 2);
        assert("css"@[0] == 'c');
        assert("png"@[0] == 'p');
    }
    if e == "jpeg"@ {
        assert(e.len() == 4 && e[0] == 'j' && e[1] == 'p' && e[2] == 'e');
        assert("html"@[0] == 'h');
        assert("js"@.len() == 2);
        assert("css"@.len() == 3);
        assert("png"@.len() == 3);
        assert("jpg"@.len() == 3);
    }
    if e == "gif"@ {
        assert(e.len() == 3 && e[0] == 'g' && e[1] == 'i' && e[2] == 'f');
        assert("html"@.len() == 4);
        assert("js"@.len() == 2);
        assert("css"@[0] == 'c');
        assert("png"@[0] == 'p');
        assert("jpg"@[0] == 'j');
        assert("jpeg"@.len() == 4);
    }
    if e == "svg"@ {
        assert(e.len() == 3 && e[0] == 's' && e[1] == 'v' && e[2] == 'g');
        assert("html"@.len() == 4);
        assert("js"@.len() == 2);
        assert("css"@[0] == 'c');
        assert("png"@[0] == 'p');
        assert("jpg"@[0] == 'j');
        assert("jpeg"@.len() == 4);
        assert("gif"@[0] == 'g');
    }
    if e == "json"@ {
        assert(e.len() == 4 && e[0] == 'j' && e[1] == 's' && e[2] == 'o');
        assert("html"@[0] == 'h');
        assert("js"@.len() == 2);
        assert("css"@.len() == 3);
        assert("png"@.len() == 3);
        assert("jpg"@.len() == 3);
        assert("jpeg"@[1] == 'p');
        assert("gif"@.len() == 3);
        assert("svg"@.len() == 3);
    }
    if e == "xml"@ {
        assert(e.len() == 3 && e[0] == 'x' && e[1] == 'm' && e[2] == 'l');
        assert("html"@.len() == 4);
        assert("js"@.len() == 2);
        assert("css"@[0] == 'c');
        assert("png"@[0] == 'p');
        assert("jpg"@[0] == 'j');
        assert("jpeg"@.len() == 4);
        assert("gif"@[0] == 'g');
        assert("svg"@[0] == 's');
        assert("json"@.len() == 4);
    }
    if e == "tif"@ {
        assert(e.len() == 3 && e[0] == 't' && e[1] == 'i' && e[2] == 'f');
        assert("html"@.len() == 4);
        assert("js"@.len() == 2);
        assert("css"@[0] == 'c');
        assert("png"@[0] == 'p');
        assert("jpg"@[0] == 'j');
        assert("jpeg"@.len() == 4);
        assert("gif"@[0] == 'g');
        assert("svg"@[0] == 's');
        assert("json"@.len() == 4);
        assert("xml"@[0] == 'x');
    }
    if e == "tiff"@ {
        assert(e.len() == 4 && e[0] == 't' && e[1] == 'i' && e[2] == 'f');
        assert("html"@[0] == 'h');
        assert("js"@.len() == 2);
        assert("css"@.len() == 3);
        assert("png"@.len() == 3);
        assert("jpg"@.len() == 3);
        assert("jpeg"@[0] == 'j');
        assert("gif"@.len() == 3);
        assert("svg"@.len() == 3);
        assert("json"@[0] == 'j');
        assert("xml"@.len() == 3);
        assert("tif"@.len() == 3);
    }
    if e == "geojson"@ {
        assert(e.len() == 7 && e[0] == 'g' && e[1] == 'e' && e[2] == 'o');
        assert("html"@.len() == 4);
        assert("js"@.len() == 2);
        assert("css"@.len() == 3);
        assert("png"@.len() == 3);
        assert("jpg"@.len() == 3);
        assert("jpeg"@.len() == 4);
        assert("gif"@.len() == 3);
        assert("svg"@.len() == 3);
        assert("json"@.len() == 4);
        assert("xml"@.len() == 3);
        assert("tif"@.len() == 3);
        assert("tiff"@.len() == 4);
    }
    if e == "webp"@ {
        assert(e.len() == 4 && e[0] == 'w' && e[1] == 'e' && e[2] == 'b');
        assert("html"@[0] == 'h');
        assert("js"@.len() == 2);
        assert("css"@.len() == 3);
        assert("png"@.len() == 3);
        assert("jpg"@.len() == 3);
        assert("jpeg"@[0] == 'j');
        assert("gif"@.len() == 3);
        assert("svg"@.len() == 3);
        assert("json"@[0] == 'j');
        assert("xml"@.len() == 3);
        assert("tif"@.len() == 3);
        assert("tiff"@[0] == 't');
        assert("geojson"@.len() == 7);
    }
    if e == "ico"@ {
        assert(e.len() == 3 && e[0] == 'i' && e[1] == 'c' && e[2] == 'o');
        assert("html"@.len() == 4);
        assert("js"@.len() == 2);
        assert("css"@[0] == 'c');
        assert("png"@[0] == 'p');
        assert("jpg"@[0] == 'j');
        assert("jpeg"@.len() == 4);
        assert("gif"@[0] == 'g');
        assert("svg"@[0] == 's');
        assert("json"@.len() == 4);
        assert("xml"@[0] == 'x');
        assert("tif"@[0] == 't');
        assert("tiff"@.len() == 4);
        assert("geojson"@.len() == 7);
        assert("webp"@.len() == 4);
    }
    if e == "woff2"@ {
        assert(e.len() == 5 && e[0] == 'w' && e[1] == 'o' && e[2] == 'f');
        assert("html"@.len() == 4);
        assert("js"@.len() == 2);
        assert("css"@.len() == 3);
        assert("png"@.len() == 3);
        assert("jpg"@.len() == 3);
        assert("jpeg"@.len() == 4);
        assert("gif"@.len() == 3);
        assert("svg"@.len() == 3);
        assert("json"@.len() == 4);
        assert("xml"@.len() == 3);
        assert("tif"@.len() == 3);
        assert("tiff"@.len() == 4);
        assert("geojson"@.len() == 7);
        assert("webp"@.len() == 4);
        assert("ico"@.len() == 3);
    }
}

/// The media types of files, by what follows the last dot of their paths, in small letters.
pub proof fn law_media_types(path: &str, mime: &'static str, a: Seq<char>, ext: Seq<char>)
    requires
        call_ensures(mime_type, (path,), mime),
        path@ == a + seq!['.'] + ext,
        !ext.contains('.'),
    ensures
        crate::text::lowered(ext) == "html"@ ==> mime@ == "text/html"@,
        crate::text::lowered(ext) == "js"@ ==> mime@ == "application/javascript"@,
        crate::text::lowered(ext) == "css"@ ==> mime@ == "text/css"@,
        crate::text::lowered(ext) == "png"@ ==> mime@ == "image/png"@,
        crate::text::lowered(ext) == "jpg"@ ==> mime@ == "image/jpeg"@,
        crate::text::lowered(ext) == "jpeg"@ ==> mime@ == "image/jpeg"@,
        crate::text::lowered(ext) == "gif"@ ==> mime@ == "image/gif"@,
        crate::text::lowered(ext) == "svg"@ ==> mime@ == "image/svg+xml"@,
        crate::text::lowered(ext) == "json"@ ==> mime@ == "application/json"@,
        crate::text::lowered(ext) == "xml"@ ==> mime@ == "application/xml"@,
        crate::text::lowered(ext) == "tif"@ ==> mime@ == "image/tiff"@,
        crate::text::lowered(ext) == "tiff"@ ==> mime@ == "image/tiff"@,
        crate::text::lowered(ext) == "geojson"@ ==> mime@ == "application/geo+json"@,
        crate::text::lowered(ext) == "webp"@ ==> mime@ == "image/webp"@,
        crate::text::lowered(ext) == "ico"@ ==> mime@ == "image/x-icon"@,
        crate::text::lowered(ext) == "woff2"@ ==> mime@ == "font/woff2"@,
        crate::text::lowered(ext) != "html"@
            && crate::text::lowered(ext) != "js"@
            && crate::text::lowered(ext) != "css"@
            && crate::text::lowered(ext) != "png"@
            && crate::text::lowered(ext) != "jpg"@
            && crate::text::lowered(ext) != "jpeg"@
            && crate::text::lowered(ext) != "gif"@
            && crate::text::lowered(ext) != "svg"@
            && crate::text::lowered(ext) != "json"@
            && crate::text::lowered(ext) != "xml"@
            && crate::text::lowered(ext) != "tif"@
            && crate::text::lowered(ext) != "tiff"@
            && crate::text::lowered(ext) != "geojson"@
            && crate::text::lowered(ext) != "webp"@
            && crate::text::lowered(ext) != "ico"@
            && crate::text::lowered(ext) != "woff2"@ ==> mime@
            == "application/octet-stream"@,
{
    let at = a.len() as int;
    assert(path@[at] == '.');
    assert forall|k: int| at < k < path@.len() implies path@[k] != '.' by {
        assert(path@[k] == ext[k - at - 1]);
        assert(ext.contains(path@[k]));
    }
    lemma_last_index_is(path@, '.', at);
    assert(after_last_dot(path@) =~= ext);
    let e = crate::text::lowered(ext);
    lemma_extensions_differ(e);
}

/// The bytes of a directory are those of its files together.
pub proof fn law_sizes_add_up(sizes: Seq<u64>, size: u64)
    ensures
        sum_of(Seq::<u64>::empty()) == 0,
        sum_of(sizes.push(size)) == sum_of(sizes) + size,
{
    assert(sizes.push(size).drop_last() =~= sizes);
}

/// The extensions of rasters and of vector data.
pub proof fn law_extensions_of_data(ext: &str, raster: bool, vector: bool)
    requires
        call_ensures(is_raster_ext, (ext,), raster),
        call_ensures(is_vector_ext, (ext,), vector),
    ensures
        raster <==> ext@ == "tif"@ || ext@ == "tiff"@,
        vector <==> ext@ == "geojson"@ || ext@ == "json"@ || ext@ == "shp"@ || ext@ == "wkt"@
            || ext@ == "kml"@ || ext@ == "kmz"@,
{
}

/// A request for a static file that goes up, once slashes are taken off its start, is refused.
/// Any other is answered by the first directory that has something for it.
pub proof fn law_static_files(
    path: &str,
    probes: &Vec<StaticProbe>,
    clean: String,
    up: bool,
    answer: StaticAnswer,
)
    requires
        call_ensures(fallback_handler, (path, probes), answer),
        call_ensures(static_path, (path,), clean),
        exists|text: &str| text@ == clean@ && #[trigger] call_ensures(path_goes_up, (text,), up),
    ensures
        up <==> answer is BadRequest,
        answer matches StaticAnswer::File(i) ==> i < probes@.len() && probes@[i as int] is File
            && forall|j: int| 0 <= j < i ==> (#[trigger] probes@[j]) is Nothing,
        answer matches StaticAnswer::Index(i) ==> i < probes@.len() && probes@[i as int] is Index
            && forall|j: int| 0 <= j < i ==> (#[trigger] probes@[j]) is Nothing,
        answer is NotFound ==> forall|j: int|
            0 <= j < probes@.len() ==> (#[trigger] probes@[j]) is Nothing,
{
}

/// An error is the one with a status and a message where it has both.
pub proof fn law_errors_have_status_and_message(e: HttpError, status: u16, message: &str)
    ensures
        call_ensures(HttpError::new, (status, message), e) ==> e.status == status && e.message@
            == message@,
        e.is(status, message@) <==> e.status == status && e.message@ == message@,
{
}

/// Answers may be kept by clients where an age is set and the answer is a good one, or tells
/// that nothing has changed; the age is the one that is set.
pub proof fn law_answers_that_are_kept(max_age: i64, status: u16, value: Option<String>)
    requires
        call_ensures(set_cache_header, (max_age, status), value),
    ensures
        value is Some <==> max_age >= 0 && (200 <= status <= 299 || status == 304),
        value is Some ==> value->Some_0@ == "public, max-age="@ + crate::numbers::decimal(
            max_age as nat,
        ),
{
}

/// The page of a directory is a page, whatever the path; a file has the type of its path. The
/// extension in small letters is the extension in small letters.
pub proof fn law_types_of_static_files(
    path: &str,
    i: usize,
    page: &'static str,
    file: &'static str,
    mime: &'static str,
    ext: String,
    found: String,
)
    requires
        call_ensures(static_type, (path, StaticAnswer::Index(i)), page),
        call_ensures(static_type, (path, StaticAnswer::File(i)), file),
        call_ensures(mime_type, (path,), mime),
        call_ensures(lower_ext, (path,), ext),
        call_ensures(file_ext, (path,), found),
    ensures
        page@ == "text/html"@,
        file@ == mime@,
        ext@ == crate::text::lowered(found@),
{
}

} // verus!
