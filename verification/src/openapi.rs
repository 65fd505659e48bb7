//! The description of the interface: the paths of each file that is served.

use crate::numbers::decimal_text;
use crate::order::stable_order;
use crate::paths::{is_raster_ext, is_vector_ext, lower_ext};
use crate::text::{
    chars_of, concat2, concat3, contains_text, is_letter_or_digit, occurs_here, str_eq, string_of,
};
use vstd::prelude::*;

verus! {

/// A character that may stand in the name of an operation.
pub open spec fn safe_char(c: char) -> char {
    if crate::text::letter_or_digit(c) || c == '_' {
        c
    } else {
        '_'
    }
}

/// The name of an operation for a file.
pub open spec fn operation_id(base: Seq<char>, filename: Seq<char>) -> Seq<char> {
    base + "_"@ + filename.map_values(|c: char| safe_char(c))
}

/// The name of an operation for a file: what is no letter, digit or underscore of the
/// file's name becomes an underscore.
pub fn make_operation_id(base: &str, filename: &str) -> (id: String)
    ensures
        id@ == operation_id(base@, filename@),
{
    let chars: Vec<char> = chars_of(filename);
    let mut safe: Vec<char> = Vec::new();
    for i in 0..chars.len()
        invariant
            safe@.len() == i,
            forall|k: int| 0 <= k < i ==> #[trigger] safe@[k] == safe_char(chars@[k]),
    {
        let c: char = chars[i];
        if is_letter_or_digit(c) || c == '_' {
            safe.push(c);
        } else {
            safe.push('_');
        }
    }
    let tail: String = string_of(safe.as_slice());
    assert(tail@ =~= filename@.map_values(|c: char| safe_char(c)));
    concat3(base, "_", tail.as_str())
}

/// A text in which every occurrence of a word, from the left, is replaced.
pub open spec fn replaced(s: Seq<char>, word: Seq<char>, by: Seq<char>) -> Seq<char>
    decreases s.len(),
{
    if s.len() == 0 || word.len() == 0 {
        s
    } else if crate::text::occurs_at(s, word, 0) {
        by + replaced(s.skip(word.len() as int), word, by)
    } else {
        seq![s[0]] + replaced(s.skip(1), word, by)
    }
}

fn replace_all(s: &str, word: &str, by: &str) -> (r: String)
    requires
        word@.len() > 0,
    ensures
        r@ == replaced(s@, word@, by@),
{
    let v: Vec<char> = chars_of(s);
    let w: Vec<char> = chars_of(word);
    let total: usize = v.len();
    let mut r: String = String::new();
    let mut i: usize = 0;
    assert(v@.skip(0) =~= v@);
    assert(r@ + replaced(v@, word@, by@) =~= replaced(v@, word@, by@));
    while i < total
        invariant
            total == v@.len(),
            i <= total,
            w@ == word@,
            w@.len() > 0,
            r@ + replaced(v@.skip(i as int), word@, by@) == replaced(v@, word@, by@),
        decreases total - i,
    {
        let ghost rest = v@.skip(i as int);
        let ghost before = r@;
        let here: bool = occurs_here(v.as_slice(), w.as_slice(), i);
        proof {
            let n = w@.len() as int;
            if i + n <= total {
                assert(rest.subrange(0, n) =~= v@.subrange(i as int, i + n));
                assert(rest.skip(n) =~= v@.skip(i + n));
            }
            assert(crate::text::occurs_at(rest, word@, 0) == crate::text::occurs_at(
                v@,
                word@,
                i as int,
            ));
            assert(rest.skip(1) =~= v@.skip(i + 1));
            assert(rest[0] == v@[i as int]);
        }
        if here {
            r.append(by);
            assert(i + w@.len() <= total);
            i += w.len();
            assert(r@ + replaced(v@.skip(i as int), word@, by@) =~= before + replaced(
                rest,
                word@,
                by@,
            ));
        } else {
            r.push(v[i]);
            i += 1;
            assert(r@ + replaced(v@.skip(i as int), word@, by@) =~= before + replaced(
                rest,
                word@,
                by@,
            ));
        }
    }
    assert(v@.skip(i as int) =~= Seq::empty());
    assert(r@ + Seq::<char>::empty() =~= r@);
    r
}

/// The lines that list files.
pub open spec fn file_lines(files: Seq<Seq<char>>) -> Seq<char>
    decreases files.len(),
{
    if files.len() == 0 {
        Seq::empty()
    } else {
        let line = "- `"@ + files.last() + "`"@;
        if files.len() == 1 {
            line
        } else {
            file_lines(files.drop_last()) + "\n"@ + line
        }
    }
}

/// What the description says of the files that are served.
pub open spec fn description_text(files: Seq<Seq<char>>) -> Seq<char> {
    "Geospatial file server with raster and vector tile serving.\n\n### Available Geo Files ("@
        + crate::numbers::decimal(files.len()) + ")\n\n"@ + file_lines(files)
}

/// What the description says of the files that are served.
pub fn spec_description(files: &Vec<String>) -> (text: String)
    ensures
        text@ == description_text(crate::text::texts(files@)),
{
    let ghost all = crate::text::texts(files@);
    let count: String = decimal_text(files.len() as u64);
    let mut lines: String = String::new();
    assert(lines@ =~= file_lines(all.take(0)));
    for i in 0..files.len()
        invariant
            all == crate::text::texts(files@),
            lines@ == file_lines(all.take(i as int)),
    {
        proof {
            assert(all.take(i + 1).drop_last() =~= all.take(i as int));
            assert(all.take(i + 1).last() == files@[i as int]@);
        }
        let ghost before = lines@;
        if i > 0 {
            lines.append("\n");
        }
        let line: String = concat3("- `", files[i].as_str(), "`");
        lines.append(line.as_str());
        proof {
            if i == 0 {
                assert(before =~= Seq::empty());
                assert(lines@ =~= line@);
            }
            assert(lines@ =~= file_lines(all.take(i + 1)));
        }
    }
    assert(all.take(all.len() as int) =~= all);
    let mut text: String = concat3(
        "Geospatial file server with raster and vector tile serving.\n\n### Available Geo Files (",
        count.as_str(),
        ")\n\n",
    );
    text.append(lines.as_str());
    text
}

/// A path that is described, the name of its operation, and the names of the parameters of
/// the operation, where they have one.
pub struct PathTemplate {
    pub path: String,
    pub operation: String,
    pub parameters: Vec<Option<String>>,
}

/// The numbers of the first `n` parameters that are not the name of a file.
pub open spec fn other_parameters(names: Seq<Option<String>>, n: nat) -> Seq<usize>
    decreases n,
{
    if n == 0 {
        Seq::empty()
    } else {
        let before = other_parameters(names, (n - 1) as nat);
        if crate::text::text_of(names[n - 1]) == Some("filename"@) {
            before
        } else {
            before.push((n - 1) as usize)
        }
    }
}

fn keep_parameters(names: &Vec<Option<String>>) -> (kept: Vec<usize>)
    ensures
        kept@ == other_parameters(names@, names@.len()),
{
    let mut kept: Vec<usize> = Vec::new();
    for i in 0..names.len()
        invariant
            kept@ == other_parameters(names@, i as nat),
    {
        let is_file: bool = match &names[i] {
            Some(name) => str_eq(name.as_str(), "filename"),
            None => false,
        };
        if !is_file {
            kept.push(i);
        }
    }
    kept
}

/// The path has a place for the name of a file.
pub open spec fn is_template(t: PathTemplate) -> bool {
    crate::text::has_text(t.path@, "{filename}"@)
}

/// A path of one file, as a value.
pub struct FilePath {
    /// The number of the template.
    pub template: int,
    pub path: Seq<char>,
    pub operation: Seq<char>,
    pub summary: Seq<char>,
    /// The numbers of the parameters of the template that stay.
    pub parameters: Seq<usize>,
}

/// A path of one file.
pub struct ConcretePath {
    pub template: usize,
    pub path: String,
    pub operation: String,
    pub summary: String,
    /// The numbers of the parameters of the template that stay.
    pub parameters: Vec<usize>,
}

impl View for ConcretePath {
    type V = FilePath;

    open spec fn view(&self) -> FilePath {
        FilePath {
            template: self.template as int,
            path: self.path@,
            operation: self.operation@,
            summary: self.summary@,
            parameters: self.parameters@,
        }
    }
}

/// A template holds for a file: one for pictures only for rasters, one for features only
/// for vector data.
pub open spec fn holds_for(template: Seq<char>, filename: Seq<char>) -> bool {
    let ext = crate::text::lowered(crate::paths::extension(filename));
    &&& crate::text::has_text(template, "/png/"@) ==> crate::paths::raster_ext(ext)
    &&& crate::text::has_text(template, "/geojson/"@) ==> crate::paths::vector_ext(ext)
}

/// What a path gives.
pub open spec fn purpose(template: Seq<char>) -> Seq<char> {
    if crate::text::has_text(template, "/info"@) {
        "info"@
    } else if crate::text::has_text(template, "/png/"@) {
        "raster tile (PNG)"@
    } else {
        "vector tile (GeoJSON)"@
    }
}

/// The path of a file for a template.
pub open spec fn file_path(number: int, t: PathTemplate, filename: Seq<char>) -> FilePath {
    FilePath {
        template: number,
        path: replaced(t.path@, "{filename}"@, filename),
        operation: operation_id(t.operation@, filename),
        summary: "Get "@ + purpose(t.path@) + " for "@ + filename,
        parameters: other_parameters(t.parameters@, t.parameters@.len()),
    }
}

/// The paths of the first `n` files for a template.
pub open spec fn paths_for(number: int, t: PathTemplate, files: Seq<Seq<char>>, n: nat) -> Seq<
    FilePath,
>
    decreases n,
{
    if n == 0 {
        Seq::empty()
    } else {
        let before = paths_for(number, t, files, (n - 1) as nat);
        if holds_for(t.path@, files[n - 1]) {
            before.push(file_path(number, t, files[n - 1]))
        } else {
            before
        }
    }
}

/// The paths of all files for the first `n` templates. One without a place for the file's
/// name is no template.
pub open spec fn planned(templates: Seq<PathTemplate>, files: Seq<Seq<char>>, n: nat) -> Seq<
    FilePath,
>
    decreases n,
{
    if n == 0 {
        Seq::empty()
    } else {
        let before = planned(templates, files, (n - 1) as nat);
        let t = templates[n - 1];
        if is_template(t) {
            before + paths_for(n - 1, t, files, files.len())
        } else {
            before
        }
    }
}

/// Paths as values.
pub open spec fn plan_of(paths: Seq<ConcretePath>) -> Seq<FilePath> {
    paths.map_values(|p: ConcretePath| p@)
}

fn template_holds(template: &str, filename: &str) -> (r: bool)
    ensures
        r == holds_for(template@, filename@),
{
    let ext: String = lower_ext(filename);
    (!contains_text(template, "/png/") || is_raster_ext(ext.as_str())) && (!contains_text(
        template,
        "/geojson/",
    ) || is_vector_ext(ext.as_str()))
}

fn concrete_path(number: usize, t: &PathTemplate, filename: &str) -> (p: ConcretePath)
    ensures
        p@ == file_path(number as int, *t, filename@),
{
    let template: &str = t.path.as_str();
    let what: &str = if contains_text(template, "/info") {
        "info"
    } else if contains_text(template, "/png/") {
        "raster tile (PNG)"
    } else {
        "vector tile (GeoJSON)"
    };
    let get: String = concat2("Get ", what);
    proof {
        reveal_strlit("{filename}");
    }
    ConcretePath {
        template: number,
        path: replace_all(template, "{filename}", filename),
        operation: make_operation_id(t.operation.as_str(), filename),
        summary: concat3(get.as_str(), " for ", filename),
        parameters: keep_parameters(&t.parameters),
    }
}

fn plan_paths(templates: &Vec<PathTemplate>, files: &Vec<String>) -> (paths: Vec<ConcretePath>)
    ensures
        plan_of(paths@) == planned(templates@, crate::text::texts(files@), templates@.len()),
{
    let ghost names = crate::text::texts(files@);
    let mut paths: Vec<ConcretePath> = Vec::new();
    assert(plan_of(paths@) =~= planned(templates@, names, 0));
    for i in 0..templates.len()
        invariant
            names == crate::text::texts(files@),
            plan_of(paths@) == planned(templates@, names, i as nat),
    {
        let t: &PathTemplate = &templates[i];
        if contains_text(t.path.as_str(), "{filename}") {
            let ghost before = plan_of(paths@);
            assert(plan_of(paths@) =~= before + paths_for(i as int, *t, names, 0));
            for j in 0..files.len()
                invariant
                    names == crate::text::texts(files@),
                    plan_of(paths@) == before + paths_for(i as int, *t, names, j as nat),
            {
                let ghost prior = paths@;
                assert(names[j as int] == files@[j as int]@);
                if template_holds(t.path.as_str(), files[j].as_str()) {
                    paths.push(concrete_path(i, t, files[j].as_str()));
                    assert(plan_of(paths@) =~= plan_of(prior).push(
                        file_path(i as int, *t, names[j as int]),
                    ));
                }
                assert(plan_of(paths@) =~= before + paths_for(i as int, *t, names, j as nat + 1));
            }
        }
    }
    paths
}

/// The paths are those of a plan, in the order of their texts; paths with the same text
/// stay in the order of the plan.
pub open spec fn is_sorted_plan(paths: Seq<ConcretePath>, plan: Seq<FilePath>) -> bool {
    exists|keys: Seq<String>, order: Seq<usize>|
        #![trigger crate::order::is_stable_order(keys, order)]
        crate::text::texts(keys) == plan.map_values(|p: FilePath| p.path)
            && crate::order::is_stable_order(keys, order) && plan_of(paths) == order.map_values(
            |k: usize| plan[k as int],
        )
}

/// The numbers of the first `n` paths that stay in the description. Templates stay only
/// where no file is served.
pub open spec fn staying(templates: Seq<PathTemplate>, served: bool, n: nat) -> Seq<usize>
    decreases n,
{
    if n == 0 {
        Seq::empty()
    } else {
        let before = staying(templates, served, (n - 1) as nat);
        if served && is_template(templates[n - 1]) {
            before
        } else {
            before.push((n - 1) as usize)
        }
    }
}

/// What the description says of the files that are served.
pub struct DynamicSpec {
    pub description: String,
    /// The files that are listed.
    pub files: Vec<String>,
    /// The numbers of the paths that stay.
    pub kept: Vec<usize>,
    /// The paths that are added.
    pub paths: Vec<ConcretePath>,
}

fn sort_paths(plan: &Vec<ConcretePath>) -> (paths: Vec<ConcretePath>)
    ensures
        is_sorted_plan(paths@, plan_of(plan@)),
{
    let ghost values = plan_of(plan@);
    let mut keys: Vec<String> = Vec::new();
    for i in 0..plan.len()
        invariant
            keys@.len() == i,
            forall|k: int| 0 <= k < i ==> #[trigger] keys@[k]@ == plan@[k].path@,
    {
        keys.push(plan[i].path.as_str().to_owned());
    }
    let order: Vec<usize> = stable_order(&keys);
    let mut paths: Vec<ConcretePath> = Vec::new();
    for i in 0..order.len()
        invariant
            crate::order::is_stable_order(keys@, order@),
            keys@.len() == plan@.len(),
            values == plan_of(plan@),
            paths@.len() == i,
            forall|k: int| 0 <= k < i ==> #[trigger] paths@[k]@ == values[order@[k] as int],
    {
        let p: &ConcretePath = &plan[order[i]];
        let mut parameters: Vec<usize> = Vec::new();
        for j in 0..p.parameters.len()
            invariant
                parameters@ =~= p.parameters@.take(j as int),
        {
            parameters.push(p.parameters[j]);
        }
        assert(parameters@ =~= p.parameters@);
        paths.push(
            ConcretePath {
                template: p.template,
                path: p.path.as_str().to_owned(),
                operation: p.operation.as_str().to_owned(),
                summary: p.summary.as_str().to_owned(),
                parameters,
            },
        );
        assert(paths@[i as int]@ == values[order@[i as int] as int]);
    }
    proof {
        assert(crate::text::texts(keys@) =~= values.map_values(|p: FilePath| p.path));
        assert(plan_of(paths@) =~= order@.map_values(|k: usize| values[k as int]));
    }
    paths
}

/// What the description says of the files that are served: it lists them, and has the paths
/// of each file, in order and without a parameter for the file's name, in place of its
/// templates. Where no file is served, the templates stay.
pub fn build_dynamic_spec(templates: &Vec<PathTemplate>, files: &Vec<String>) -> (spec: DynamicSpec)
    ensures
        spec.description@ == description_text(crate::text::texts(files@)),
        crate::text::texts(spec.files@) == crate::text::texts(files@),
        spec.kept@ == staying(templates@, files@.len() > 0, templates@.len()),
        files@.len() == 0 ==> spec.paths@.len() == 0,
        files@.len() > 0 ==> is_sorted_plan(
            spec.paths@,
            planned(templates@, crate::text::texts(files@), templates@.len()),
        ),
{
    let served: bool = files.len() > 0;
    let mut listed: Vec<String> = Vec::new();
    for i in 0..files.len()
        invariant
            listed@.len() == i,
            forall|k: int| 0 <= k < i ==> #[trigger] listed@[k]@ == files@[k]@,
    {
        listed.push(files[i].as_str().to_owned());
    }
    assert(crate::text::texts(listed@) =~= crate::text::texts(files@));
    let mut kept: Vec<usize> = Vec::new();
    for i in 0..templates.len()
        invariant
            kept@ == staying(templates@, served, i as nat),
    {
        if !(served && contains_text(templates[i].path.as_str(), "{filename}")) {
            kept.push(i);
        }
    }
    let paths: Vec<ConcretePath> = if served {
        sort_paths(&plan_paths(templates, files))
    } else {
        Vec::new()
    };
    DynamicSpec { description: spec_description(files), files: listed, kept, paths }
}

proof fn lemma_other_parameters(names: Seq<Option<String>>, n: nat, i: int)
    requires
        n <= names.len(),
        names.len() <= usize::MAX,
        0 <= i < other_parameters(names, n).len(),
    ensures
        other_parameters(names, n)[i] < n,
        crate::text::text_of(names[other_parameters(names, n)[i] as int]) != Some("filename"@),
    decreases n,
{
    let before = other_parameters(names, (n - 1) as nat);
    if i < before.len() {
        lemma_other_parameters(names, (n - 1) as nat, i);
    }
}

proof fn lemma_paths_for(number: int, t: PathTemplate, files: Seq<Seq<char>>, n: nat, i: int)
    requires
        n <= files.len(),
        0 <= i < paths_for(number, t, files, n).len(),
    ensures
        paths_for(number, t, files, n)[i].template == number,
        paths_for(number, t, files, n)[i].parameters == other_parameters(
            t.parameters@,
            t.parameters@.len(),
        ),
    decreases n,
{
    if i < paths_for(number, t, files, (n - 1) as nat).len() {
        lemma_paths_for(number, t, files, (n - 1) as nat, i);
    }
}

proof fn lemma_planned(templates: Seq<PathTemplate>, files: Seq<Seq<char>>, n: nat, i: int)
    requires
        n <= templates.len(),
        0 <= i < planned(templates, files, n).len(),
    ensures
        ({
            let p = planned(templates, files, n)[i];
            &&& 0 <= p.template < n
            &&& p.parameters == other_parameters(
                templates[p.template].parameters@,
                templates[p.template].parameters@.len(),
            )
        }),
    decreases n,
{
    let before = planned(templates, files, (n - 1) as nat);
    if i < before.len() {
        lemma_planned(templates, files, (n - 1) as nat, i);
    } else {
        lemma_paths_for(n - 1, templates[n - 1], files, files.len(), i - before.len());
    }
}

/// No path of a file has a parameter for the file's name.
pub proof fn law_file_name_is_no_parameter(
    templates: Seq<PathTemplate>,
    files: Seq<Seq<char>>,
    paths: Seq<ConcretePath>,
    i: int,
    k: int,
)
    requires
        is_sorted_plan(paths, planned(templates, files, templates.len())),
        0 <= i < paths.len(),
        0 <= k < paths[i].parameters@.len(),
        forall|j: int|
            0 <= j < templates.len() ==> (#[trigger] templates[j]).parameters@.len() <= usize::MAX,
    ensures
        0 <= paths[i].template < templates.len(),
        ({
            let names = templates[paths[i].template as int].parameters@;
            let p = paths[i].parameters@[k];
            p < names.len() && crate::text::text_of(names[p as int]) != Some("filename"@)
        }),
{
    let plan = planned(templates, files, templates.len());
    let (keys, order) = choose|keys: Seq<String>, order: Seq<usize>|
        #![trigger crate::order::is_stable_order(keys, order)]
        crate::text::texts(keys) == plan.map_values(|p: FilePath| p.path)
            && crate::order::is_stable_order(keys, order) && plan_of(paths) == order.map_values(
            |k: usize| plan[k as int],
        );
    assert(crate::text::texts(keys).len() == plan.len());
    assert(plan_of(paths).len() == order.len());
    assert(order[i] < keys.len());
    assert(plan_of(paths)[i] == paths[i]@);
    assert(plan_of(paths)[i] == plan[order[i] as int]);
    lemma_planned(templates, files, templates.len(), order[i] as int);
    let names = templates[paths[i].template as int].parameters@;
    lemma_other_parameters(names, names.len(), k);
}

// ─── What holds of the description ───

/// The name of an operation is the given one, an underscore, and the name of the file, in which
/// letters, digits and underscores stay and every other ASCII character becomes an underscore.
pub proof fn law_names_of_operations(base: &str, filename: &str, id: String, k: int)
    requires
        call_ensures(make_operation_id, (base, filename), id),
    ensures
        id@.len() == base@.len() + 1 + filename@.len(),
        id@.take(base@.len() as int) == base@,
        id@[base@.len() as int] == '_',
        0 <= k < filename@.len() && filename@[k] as u32 <= 127 ==> ({
            let c = filename@[k];
            let made = id@[base@.len() + 1 + k];
            if ('0' <= c && c <= '9') || ('A' <= c && c <= 'Z') || ('a' <= c && c <= 'z') {
                made == c
            } else {
                made == '_'
            }
        }),
{
    reveal_strlit("_");
    let tail = filename@.map_values(|c: char| safe_char(c));
    assert(id@ == base@ + "_"@ + tail);
    assert(id@.take(base@.len() as int) =~= base@);
    if 0 <= k < filename@.len() {
        assert(id@[base@.len() + 1 + k] == tail[k]);
    }
}

/// The description tells the number of the files, and then each file on a line of its own.
pub proof fn law_description_lists_the_files(
    files: &Vec<String>,
    text: String,
    all: Seq<Seq<char>>,
    file: Seq<char>,
)
    requires
        call_ensures(spec_description, (files,), text),
    ensures
        text@ == "Geospatial file server with raster and vector tile serving.\n\n### Available Geo Files ("@
            + crate::numbers::decimal(files@.len()) + ")\n\n"@ + file_lines(
            crate::text::texts(files@),
        ),
        file_lines(Seq::empty()).len() == 0,
        file_lines(seq![file]) == "- `"@ + file + "`"@,
        all.len() > 0 ==> file_lines(all.push(file)) == file_lines(all) + "\n"@ + ("- `"@ + file
            + "`"@),
{
    assert(crate::text::texts(files@).len() == files@.len());
    assert(all.push(file).drop_last() =~= all);
}

proof fn lemma_replaced_at(s: Seq<char>, word: Seq<char>, by: Seq<char>, i: int)
    requires
        word.len() > 0,
        crate::text::occurs_at(s, word, i),
        forall|j: int| 0 <= j < i ==> !#[trigger] crate::text::occurs_at(s, word, j),
    ensures
        replaced(s, word, by) == s.take(i) + by + replaced(s.skip(i + word.len()), word, by),
    decreases i,
{
    if i == 0 {
        assert(s.take(0) + by =~= by);
    } else {
        assert(!crate::text::occurs_at(s, word, 0));
        let rest = s.skip(1);
        lemma_occurs_skip(s, word, i);
        assert forall|j: int| 0 <= j < i - 1 implies !#[trigger] crate::text::occurs_at(
            rest,
            word,
            j,
        ) by {
            lemma_occurs_skip(s, word, j + 1);
            assert(!crate::text::occurs_at(s, word, j + 1));
        }
        lemma_replaced_at(rest, word, by, i - 1);
        assert(rest.skip(i - 1 + word.len()) =~= s.skip(i + word.len()));
        let tail = replaced(s.skip(i + word.len()), word, by);
        assert(seq![s[0]] + (rest.take(i - 1) + by + tail) =~= s.take(i) + by + tail);
    }
}

proof fn lemma_occurs_skip(s: Seq<char>, word: Seq<char>, i: int)
    requires
        0 < i <= s.len(),
    ensures
        crate::text::occurs_at(s.skip(1), word, i - 1) == crate::text::occurs_at(s, word, i),
{
    if i + word.len() <= s.len() {
        assert(s.skip(1).subrange(i - 1, i - 1 + word.len()) =~= s.subrange(i, i + word.len()));
    }
}

proof fn lemma_replaced_nowhere(s: Seq<char>, word: Seq<char>, by: Seq<char>)
    requires
        word.len() > 0,
        !crate::text::has_text(s, word),
    ensures
        replaced(s, word, by) == s,
    decreases s.len(),
{
    if s.len() > 0 {
        assert(!crate::text::occurs_at(s, word, 0));
        let rest = s.skip(1);
        assert(!crate::text::has_text(rest, word)) by {
            if crate::text::has_text(rest, word) {
                let j = choose|j: int| crate::text::occurs_at(rest, word, j);
                lemma_occurs_skip(s, word, j + 1);
                assert(crate::text::occurs_at(s, word, j + 1));
            }
        }
        lemma_replaced_nowhere(rest, word, by);
        assert(seq![s[0]] + rest =~= s);
    }
}

/// Where a word stands first in a text, it is replaced and the rest is searched on; what stands
/// before it stays. A text without the word stays as it is.
pub proof fn law_words_are_replaced(s: Seq<char>, word: Seq<char>, by: Seq<char>, i: int)
    requires
        word.len() > 0,
    ensures
        !crate::text::has_text(s, word) ==> replaced(s, word, by) == s,
        crate::text::occurs_at(s, word, i) && (forall|j: int|
            0 <= j < i ==> !#[trigger] crate::text::occurs_at(s, word, j)) ==> replaced(
            s,
            word,
            by,
        ) == s.take(i) + by + replaced(s.skip(i + word.len()), word, by),
{
    if !crate::text::has_text(s, word) {
        lemma_replaced_nowhere(s, word, by);
    }
    if crate::text::occurs_at(s, word, i) && (forall|j: int|
        0 <= j < i ==> !#[trigger] crate::text::occurs_at(s, word, j)) {
        lemma_replaced_at(s, word, by, i);
    }
}

/// A template for pictures holds for rasters, one for features for vector data, any other for
/// every file. The text of a path has the name of the file in place of the word, and its
/// operation and its summary name the file.
pub proof fn law_path_of_a_file(number: int, t: PathTemplate, filename: Seq<char>)
    ensures
        ({
            let ext = crate::text::lowered(crate::paths::extension(filename));
            let raster = ext == "tif"@ || ext == "tiff"@;
            let vector = ext == "geojson"@ || ext == "json"@ || ext == "shp"@ || ext == "wkt"@
                || ext == "kml"@ || ext == "kmz"@;
            let png = crate::text::has_text(t.path@, "/png/"@);
            let json = crate::text::has_text(t.path@, "/geojson/"@);
            &&& holds_for(t.path@, filename) <==> (png ==> raster) && (json ==> vector)
        }),
        ({
            let p = file_path(number, t, filename);
            &&& p.template == number
            &&& p.path == replaced(t.path@, "{filename}"@, filename)
            &&& p.operation == t.operation@ + "_"@ + filename.map_values(
                |c: char|
                    if crate::text::letter_or_digit(c) || c == '_' {
                        c
                    } else {
                        '_'
                    },
            )
            &&& crate::text::has_text(t.path@, "/info"@) ==> p.summary == "Get "@ + "info"@
                + " for "@ + filename
            &&& !crate::text::has_text(t.path@, "/info"@) && crate::text::has_text(
                t.path@,
                "/png/"@,
            ) ==> p.summary == "Get "@ + "raster tile (PNG)"@ + " for "@ + filename
            &&& !crate::text::has_text(t.path@, "/info"@) && !crate::text::has_text(
                t.path@,
                "/png/"@,
            ) ==> p.summary == "Get "@ + "vector tile (GeoJSON)"@ + " for "@ + filename
        }),
{
    assert(filename.map_values(|c: char| safe_char(c)) =~= filename.map_values(
        |c: char|
            if crate::text::letter_or_digit(c) || c == '_' {
                c
            } else {
                '_'
            },
    ));
}

proof fn lemma_parameters_kept(names: Seq<Option<String>>, n: nat, k: int)
    requires
        n <= names.len() <= usize::MAX,
        0 <= k < n,
        crate::text::text_of(names[k]) != Some("filename"@),
    ensures
        other_parameters(names, n).contains(k as usize),
    decreases n,
{
    let before = other_parameters(names, (n - 1) as nat);
    let all = other_parameters(names, n);
    if k < n - 1 {
        lemma_parameters_kept(names, (n - 1) as nat, k);
        let i = choose|i: int| 0 <= i < before.len() && before[i] == k as usize;
        assert(all[i] == k as usize);
    } else {
        assert(all[before.len() as int] == k as usize);
    }
}

proof fn lemma_parameters_rise(names: Seq<Option<String>>, n: nat, i: int, j: int)
    requires
        n <= names.len() <= usize::MAX,
        0 <= i < j < other_parameters(names, n).len(),
    ensures
        other_parameters(names, n)[i] < other_parameters(names, n)[j],
    decreases n,
{
    let before = other_parameters(names, (n - 1) as nat);
    if j < before.len() {
        lemma_parameters_rise(names, (n - 1) as nat, i, j);
    } else {
        lemma_other_parameters(names, (n - 1) as nat, i);
    }
}

/// The parameters of a path of a file are those of its template but for the name of the file,
/// each once and in order.
pub proof fn law_parameters_that_stay(
    number: int,
    t: PathTemplate,
    filename: Seq<char>,
    k: int,
    i: int,
    j: int,
)
    requires
        t.parameters@.len() <= usize::MAX,
    ensures
        ({
            let names = t.parameters@;
            let kept = file_path(number, t, filename).parameters;
            &&& 0 <= k < names.len() && (names[k] is None || names[k]->Some_0@ != "filename"@)
                ==> kept.contains(k as usize)
            &&& 0 <= i < kept.len() ==> kept[i] < names.len() && (names[kept[i] as int] is None
                || names[kept[i] as int]->Some_0@ != "filename"@)
            &&& 0 <= i < j < kept.len() ==> kept[i] < kept[j]
        }),
{
    let names = t.parameters@;
    let kept = file_path(number, t, filename).parameters;
    if 0 <= k < names.len() && (names[k] is None || names[k]->Some_0@ != "filename"@) {
        lemma_parameters_kept(names, names.len(), k);
    }
    if 0 <= i < kept.len() {
        lemma_other_parameters(names, names.len(), i);
    }
    if 0 <= i < j < kept.len() {
        lemma_parameters_rise(names, names.len(), i, j);
    }
}

proof fn lemma_file_has_path(number: int, t: PathTemplate, files: Seq<Seq<char>>, n: nat, k: int)
    requires
        n <= files.len(),
        0 <= k < n,
        holds_for(t.path@, files[k]),
    ensures
        paths_for(number, t, files, n).contains(file_path(number, t, files[k])),
    decreases n,
{
    let before = paths_for(number, t, files, (n - 1) as nat);
    let all = paths_for(number, t, files, n);
    let p = file_path(number, t, files[k]);
    if k < n - 1 {
        lemma_file_has_path(number, t, files, (n - 1) as nat, k);
        let i = choose|i: int| 0 <= i < before.len() && before[i] == p;
        assert(all[i] == p);
    } else {
        assert(all[before.len() as int] == p);
    }
}

/// A path is that of a file for a template.
pub open spec fn is_path_of(
    p: FilePath,
    templates: Seq<PathTemplate>,
    files: Seq<Seq<char>>,
    i: int,
    k: int,
) -> bool {
    &&& 0 <= i < templates.len()
    &&& 0 <= k < files.len()
    &&& crate::text::has_text(templates[i].path@, "{filename}"@)
    &&& holds_for(templates[i].path@, files[k])
    &&& p == file_path(i, templates[i], files[k])
}

proof fn lemma_path_has_file(number: int, t: PathTemplate, files: Seq<Seq<char>>, n: nat, i: int)
    requires
        n <= files.len(),
        0 <= i < paths_for(number, t, files, n).len(),
    ensures
        exists|k: int|
            0 <= k < n && holds_for(t.path@, #[trigger] files[k]) && paths_for(
                number,
                t,
                files,
                n,
            )[i] == file_path(number, t, files[k]),
    decreases n,
{
    let before = paths_for(number, t, files, (n - 1) as nat);
    if i < before.len() {
        lemma_path_has_file(number, t, files, (n - 1) as nat, i);
        let k = choose|k: int|
            0 <= k < n - 1 && holds_for(t.path@, #[trigger] files[k]) && before[i] == file_path(
                number,
                t,
                files[k],
            );
        assert(holds_for(t.path@, files[k]));
    } else {
        assert(holds_for(t.path@, files[n - 1]));
    }
}

proof fn lemma_template_is_planned(
    templates: Seq<PathTemplate>,
    files: Seq<Seq<char>>,
    n: nat,
    i: int,
    k: int,
)
    requires
        n <= templates.len(),
        0 <= i < n,
        0 <= k < files.len(),
        is_template(templates[i]),
        holds_for(templates[i].path@, files[k]),
    ensures
        planned(templates, files, n).contains(file_path(i, templates[i], files[k])),
    decreases n,
{
    let before = planned(templates, files, (n - 1) as nat);
    let all = planned(templates, files, n);
    let p = file_path(i, templates[i], files[k]);
    if i < n - 1 {
        lemma_template_is_planned(templates, files, (n - 1) as nat, i, k);
        let m = choose|m: int| 0 <= m < before.len() && before[m] == p;
        assert(all[m] == p);
    } else {
        lemma_file_has_path(i, templates[i], files, files.len(), k);
        let more = paths_for(i, templates[i], files, files.len());
        let m = choose|m: int| 0 <= m < more.len() && more[m] == p;
        assert(all[before.len() + m] == p);
    }
}

proof fn lemma_planned_has_template(
    templates: Seq<PathTemplate>,
    files: Seq<Seq<char>>,
    n: nat,
    m: int,
)
    requires
        n <= templates.len(),
        0 <= m < planned(templates, files, n).len(),
    ensures
        exists|i: int, k: int| #[trigger]
            is_path_of(planned(templates, files, n)[m], templates, files, i, k),
    decreases n,
{
    let before = planned(templates, files, (n - 1) as nat);
    let all = planned(templates, files, n);
    if m < before.len() {
        lemma_planned_has_template(templates, files, (n - 1) as nat, m);
        let (i, k) = choose|i: int, k: int| #[trigger]
            is_path_of(before[m], templates, files, i, k);
        assert(is_path_of(all[m], templates, files, i, k));
    } else {
        let t = templates[n - 1];
        lemma_path_has_file(n - 1, t, files, files.len(), m - before.len());
        let more = paths_for(n - 1, t, files, files.len());
        let k = choose|k: int|
            0 <= k < files.len() && holds_for(t.path@, #[trigger] files[k]) && more[m
                - before.len()] == file_path(n - 1, t, files[k]);
        assert(is_path_of(all[m], templates, files, n - 1, k));
    }
}

/// The description has a path for each file and each template that holds for it, and no other
/// path, in the order of their texts. Where no file is served, there is none.
pub proof fn law_every_file_has_its_paths(
    templates: &Vec<PathTemplate>,
    files: &Vec<String>,
    spec: DynamicSpec,
    i: int,
    k: int,
    a: int,
    b: int,
)
    requires
        call_ensures(build_dynamic_spec, (templates, files), spec),
    ensures
        files@.len() == 0 ==> spec.paths@.len() == 0,
        0 <= i < templates@.len() && 0 <= k < files@.len() && crate::text::has_text(
            templates@[i].path@,
            "{filename}"@,
        ) && holds_for(templates@[i].path@, files@[k]@) ==> exists|p: int|
            0 <= p < spec.paths@.len() && (#[trigger] spec.paths@[p])@ == file_path(
                i,
                templates@[i],
                files@[k]@,
            ),
        0 <= a < spec.paths@.len() ==> exists|i: int, k: int| #[trigger]
            is_path_of(
                spec.paths@[a]@,
                templates@,
                crate::text::texts(files@),
                i,
                k,
            ),
        0 <= a < b < spec.paths@.len() ==> !crate::text::text_before(
            spec.paths@[b].path@,
            spec.paths@[a].path@,
        ),
        files@.len() > 0 ==> spec.paths@.len() == planned(
            templates@,
            crate::text::texts(files@),
            templates@.len(),
        ).len(),
{
    if files@.len() > 0 {
        let names = crate::text::texts(files@);
        assert(names.len() == files@.len());
        let plan = planned(templates@, names, templates@.len());
        let paths = spec.paths@;
        let (keys, order) = choose|keys: Seq<String>, order: Seq<usize>|
            #![trigger crate::order::is_stable_order(keys, order)]
            crate::text::texts(keys) == plan.map_values(|p: FilePath| p.path)
                && crate::order::is_stable_order(keys, order) && plan_of(paths)
                == order.map_values(|k: usize| plan[k as int]);
        assert(crate::text::texts(keys).len() == plan.len());
        assert(plan_of(paths).len() == order.len());
        assert(paths.len() == plan.len());
        assert forall|p: int| 0 <= p < paths.len() implies (#[trigger] paths[p])@
            == plan[order[p] as int] && order[p] < plan.len() && keys[order[p] as int]@
            == paths[p].path@ by {
            assert(plan_of(paths)[p] == paths[p]@);
            assert(order[p] < keys.len());
            assert(crate::text::texts(keys)[order[p] as int] == keys[order[p] as int]@);
        }
        if 0 <= i < templates@.len() && 0 <= k < files@.len() && crate::text::has_text(
            templates@[i].path@,
            "{filename}"@,
        ) && holds_for(templates@[i].path@, files@[k]@) {
            assert(names[k] == files@[k]@);
            lemma_template_is_planned(templates@, names, templates@.len(), i, k);
            let q = file_path(i, templates@[i], names[k]);
            let m = choose|m: int| 0 <= m < plan.len() && plan[m] == q;
            assert(spec.paths.len() == keys.len());
            assert(order.contains(m as usize));
            let p = choose|p: int| 0 <= p < order.len() && order[p] == m as usize;
            assert(paths[p]@ == q);
        }
        if 0 <= a < paths.len() {
            lemma_planned_has_template(templates@, names, templates@.len(), order[a] as int);
            assert(paths[a]@ == plan[order[a] as int]);
        }
        if 0 <= a < b < paths.len() {
            let (x, y) = (order[a] as int, order[b] as int);
            assert(crate::order::ordered_pair(keys, x, y));
            assert(keys[x]@ == paths[a].path@ && keys[y]@ == paths[b].path@);
            crate::text::law_text_order_total(keys[x]@, keys[y]@);
        }
    }
}

/// One more template adds the paths of the files that it holds for, one each; one without a
/// place for the name of a file adds none.
pub proof fn law_plan_has_each_path_once(
    templates: Seq<PathTemplate>,
    files: Seq<Seq<char>>,
    n: nat,
    number: int,
    t: PathTemplate,
    k: nat,
)
    ensures
        planned(templates, files, 0).len() == 0,
        n < templates.len() && crate::text::has_text(templates[n as int].path@, "{filename}"@)
            ==> planned(templates, files, n + 1).len() == planned(templates, files, n).len()
            + paths_for(n as int, templates[n as int], files, files.len()).len(),
        n < templates.len() && !crate::text::has_text(templates[n as int].path@, "{filename}"@)
            ==> planned(templates, files, n + 1).len() == planned(templates, files, n).len(),
        paths_for(number, t, files, 0).len() == 0,
        holds_for(t.path@, files[k as int]) ==> paths_for(number, t, files, k + 1).len()
            == paths_for(number, t, files, k).len() + 1,
        !holds_for(t.path@, files[k as int]) ==> paths_for(number, t, files, k + 1).len()
            == paths_for(number, t, files, k).len(),
{
}

proof fn lemma_staying(templates: Seq<PathTemplate>, served: bool, n: nat, k: int, i: int, j: int)
    requires
        n <= templates.len() <= usize::MAX,
    ensures
        0 <= k < n && !(served && is_template(templates[k])) ==> staying(
            templates,
            served,
            n,
        ).contains(k as usize),
        0 <= i < staying(templates, served, n).len() ==> staying(templates, served, n)[i] < n && !(
        served && is_template(templates[staying(templates, served, n)[i] as int])),
        0 <= i < j < staying(templates, served, n).len() ==> staying(templates, served, n)[i]
            < staying(templates, served, n)[j],
    decreases n,
{
    if n > 0 {
        let before = staying(templates, served, (n - 1) as nat);
        let all = staying(templates, served, n);
        lemma_staying(templates, served, (n - 1) as nat, k, i, j);
        if 0 <= k < n && !(served && is_template(templates[k])) {
            if k < n - 1 {
                let m = choose|m: int| 0 <= m < before.len() && before[m] == k as usize;
                assert(all[m] == k as usize);
            } else {
                assert(all[before.len() as int] == k as usize);
            }
        }
    }
}

/// The description lists every file and keeps, in order, the paths that have no place for the
/// name of a file; where no file is served, it keeps every path.
pub proof fn law_paths_that_stay(
    templates: &Vec<PathTemplate>,
    files: &Vec<String>,
    spec: DynamicSpec,
    text: String,
    k: int,
    i: int,
    j: int,
)
    requires
        call_ensures(build_dynamic_spec, (templates, files), spec),
        call_ensures(spec_description, (files,), text),
        templates@.len() <= usize::MAX,
    ensures
        spec.description@ == text@,
        spec.files@.len() == files@.len(),
        0 <= k < files@.len() ==> spec.files@[k]@ == files@[k]@,
        0 <= k < templates@.len() && (files@.len() == 0 || !crate::text::has_text(
            templates@[k].path@,
            "{filename}"@,
        )) ==> spec.kept@.contains(k as usize),
        0 <= i < spec.kept@.len() ==> spec.kept@[i] < templates@.len() && (files@.len() == 0
            || !crate::text::has_text(templates@[spec.kept@[i] as int].path@, "{filename}"@)),
        0 <= i < j < spec.kept@.len() ==> spec.kept@[i] < spec.kept@[j],
{
    let served = files@.len() > 0;
    lemma_staying(templates@, served, templates@.len(), k, i, j);
    let (a, b) = (crate::text::texts(spec.files@), crate::text::texts(files@));
    assert(a.len() == spec.files@.len() && b.len() == files@.len());
    if 0 <= k < files@.len() {
        assert(a[k] == spec.files@[k]@ && b[k] == files@[k]@);
    }
}

} // verus!
