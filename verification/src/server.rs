//! What the server does with the sources that it serves.

use crate::batch_render::BatchTileJob;
use crate::config::SourceEntry;
use crate::data_source;
use crate::data_source::{
    create_file_source, requested_bands, requested_mode, requested_stretch, FileSource,
};
use crate::numbers::parse_unsigned;
use crate::paths::{file_name, lower_ext, HttpError};
use crate::registry::{DataSourceRegistry, RegistryEvent};
use crate::resample::ResamplingMode;
use crate::text::{concat2, split, str_eq, trim};
use vstd::prelude::*;

verus! {

/// A request to mount a file as a source.
#[derive(Debug, Clone)]
pub struct MountRequest {
    pub name: String,
    pub path: String,
}

/// A tile of a request for several.
#[derive(Debug, Clone, Copy, PartialEq, Eq, Structural)]
pub struct BatchTileReq {
    pub z: u32,
    pub x: u32,
    pub y: u32,
}

/// A request for several tiles of a raster.
#[derive(Debug, Clone)]
pub struct BatchRequest {
    pub filename: String,
    pub tiles: Vec<BatchTileReq>,
    pub resampling: Option<String>,
    pub stretch: Option<String>,
    pub bands: Option<Vec<u32>>,
}

// ─── Bands in a request ───

/// The numbers among pieces of text. A piece that is no number is left out.
pub open spec fn numbers_in(pieces: Seq<Seq<char>>) -> Seq<u32>
    decreases pieces.len(),
{
    if pieces.len() == 0 {
        Seq::empty()
    } else {
        let before = numbers_in(pieces.drop_last());
        match crate::numbers::unsigned_value(
            crate::text::trim_spec(pieces.last()),
            u32::MAX as nat,
        ) {
            Some(n) => before.push(n as u32),
            None => before,
        }
    }
}

/// The bands that a text lists between commas.
pub fn deserialize_bands(text: &str) -> (bands: Vec<u32>)
    ensures
        bands@ == numbers_in(crate::text::split_spec(text@, ',')),
{
    let pieces: Vec<String> = split(text, ',');
    let ghost all = crate::text::texts(pieces@);
    let mut bands: Vec<u32> = Vec::new();
    for i in 0..pieces.len()
        invariant
            all == crate::text::texts(pieces@),
            bands@ == numbers_in(all.take(i as int)),
    {
        assert(all.take(i + 1).drop_last() =~= all.take(i as int));
        assert(all.take(i + 1).last() == pieces@[i as int]@);
        let piece: String = trim(pieces[i].as_str());
        match parse_unsigned(piece.as_str(), 0xFFFF_FFFF) {
            Some(n) => {
                bands.push(n as u32);
            },
            None => {},
        }
    }
    assert(all.take(all.len() as int) =~= all);
    bands
}

// ─── Mounting ───

/// The sources of a registry, as values.
pub open spec fn sources_of(m: Map<Seq<char>, FileSource>) -> Map<
    Seq<char>,
    data_source::SourceValue,
> {
    m.map_values(|s: FileSource| s@)
}

/// The sources after a file was offered under a name: it is taken where its kind is
/// supported and the name is free.
pub open spec fn with_file(
    m: Map<Seq<char>, data_source::SourceValue>,
    name: Seq<char>,
    path: Seq<char>,
) -> Map<Seq<char>, data_source::SourceValue> {
    let ext = crate::text::lowered(crate::paths::extension(path));
    match data_source::source_value(name, path, ext) {
        Some(v) => if m.dom().contains(name) {
            m
        } else {
            m.insert(name, v)
        },
        None => m,
    }
}

/// Offers a file to a registry under a name, and says what came of it.
fn offer_file(registry: &mut DataSourceRegistry<FileSource>, name: &str, path: &str) -> (r: Result<
    RegistryEvent,
    HttpError,
>)
    requires
        old(registry).wf(),
    ensures
        final(registry).wf(),
        sources_of(final(registry)@) == with_file(sources_of(old(registry)@), name@, path@),
        ({
            let ext = crate::text::lowered(crate::paths::extension(path@));
            if data_source::source_value(name@, path@, ext) is None {
                r is Err && r->Err_0.is(415, "Unsupported file type: ."@ + ext)
            } else if old(registry)@.dom().contains(name@) {
                r is Err && r->Err_0.is(409, "DataSource '"@ + name@ + "' already exists"@)
            } else {
                r is Ok && r->Ok_0.mounts(name@)
            }
        }),
{
    let ext: String = lower_ext(path);
    let ghost before = registry@;
    match create_file_source(name, path, ext.as_str()) {
        Some(source) => match registry.mount(name, source) {
            Ok(event) => {
                assert(sources_of(registry@) =~= with_file(sources_of(before), name@, path@));
                Ok(event)
            },
            Err(e) => Err(HttpError::new(409, e.as_str())),
        },
        None => {
            let message: String = concat2("Unsupported file type: .", ext.as_str());
            Err(HttpError::new(415, message.as_str()))
        },
    }
}

/// Mounts a file as a source. `path` is the path of the file, or the answer that refuses
/// it.
pub fn mount_source(
    registry: &mut DataSourceRegistry<FileSource>,
    req: &MountRequest,
    path: Result<String, HttpError>,
) -> (r: Result<RegistryEvent, HttpError>)
    requires
        old(registry).wf(),
    ensures
        final(registry).wf(),
        path is Err ==> r is Err && r->Err_0 == path->Err_0 && sources_of(final(registry)@)
            == sources_of(old(registry)@),
        path is Ok ==> sources_of(final(registry)@) == with_file(
            sources_of(old(registry)@),
            req.name@,
            path->Ok_0@,
        ),
        path is Ok ==> ({
            let ext = crate::text::lowered(crate::paths::extension(path->Ok_0@));
            if data_source::source_value(req.name@, path->Ok_0@, ext) is None {
                r is Err && r->Err_0.is(415, "Unsupported file type: ."@ + ext)
            } else if old(registry)@.dom().contains(req.name@) {
                r is Err && r->Err_0.is(409, "DataSource '"@ + req.name@ + "' already exists"@)
            } else {
                r is Ok && r->Ok_0.mounts(req.name@)
            }
        }),
{
    match path {
        Ok(p) => offer_file(registry, req.name.as_str(), p.as_str()),
        Err(e) => Err(e),
    }
}

/// Unmounts a source.
pub fn unmount_source(registry: &mut DataSourceRegistry<FileSource>, name: &str) -> (r: Result<
    RegistryEvent,
    HttpError,
>)
    requires
        old(registry).wf(),
    ensures
        final(registry).wf(),
        final(registry)@ == old(registry)@.remove(name@),
        old(registry)@.dom().contains(name@) ==> r is Ok && r->Ok_0.unmounts(name@),
        !old(registry)@.dom().contains(name@) ==> r is Err && r->Err_0.is(
            404,
            "DataSource '"@ + name@ + "' not found"@,
        ),
{
    match registry.unmount(name) {
        Ok(event) => Ok(event),
        Err(e) => Err(HttpError::new(404, e.as_str())),
    }
}

/// The source under a name, or the answer that refuses the request for it.
pub fn find_source<'a, S>(registry: &'a DataSourceRegistry<S>, name: &str) -> (r: Result<
    &'a S,
    HttpError,
>)
    requires
        registry.wf(),
    ensures
        registry@.dom().contains(name@) ==> r is Ok && *r->Ok_0 == registry@[name@],
        !registry@.dom().contains(name@) ==> r is Err && r->Err_0.is(
            404,
            "Source not found: "@ + name@,
        ),
{
    match registry.get(name) {
        Some(source) => Ok(source),
        None => {
            let message: String = concat2("Source not found: ", name);
            Err(HttpError::new(404, message.as_str()))
        },
    }
}

/// The sources after the files of directories were offered under their own names. The
/// description of the interface is no source.
pub open spec fn with_files(
    m: Map<Seq<char>, data_source::SourceValue>,
    paths: Seq<Seq<char>>,
) -> Map<Seq<char>, data_source::SourceValue>
    decreases paths.len(),
{
    if paths.len() == 0 {
        m
    } else {
        let before = with_files(m, paths.drop_last());
        let path = paths.last();
        let name = crate::paths::last_segment(path);
        if crate::paths::has_name(path) && name != "openapi.json"@ {
            with_file(before, name, path)
        } else {
            before
        }
    }
}

/// Mounts the files of directories under their own names.
pub fn scan_and_auto_mount(registry: &mut DataSourceRegistry<FileSource>, files: &Vec<String>)
    requires
        old(registry).wf(),
    ensures
        final(registry).wf(),
        sources_of(final(registry)@) == with_files(
            sources_of(old(registry)@),
            crate::text::texts(files@),
        ),
{
    let ghost all = crate::text::texts(files@);
    for i in 0..files.len()
        invariant
            registry.wf(),
            all == crate::text::texts(files@),
            sources_of(registry@) == with_files(sources_of(old(registry)@), all.take(i as int)),
    {
        assert(all.take(i + 1).drop_last() =~= all.take(i as int));
        assert(all.take(i + 1).last() == files@[i as int]@);
        match file_name(files[i].as_str()) {
            Some(name) => {
                if !str_eq(name.as_str(), "openapi.json") {
                    let _ = offer_file(registry, name.as_str(), files[i].as_str());
                }
            },
            None => {},
        }
    }
    assert(all.take(all.len() as int) =~= all);
}

/// The sources after those that the settings name were offered.
pub open spec fn with_entries(
    m: Map<Seq<char>, data_source::SourceValue>,
    entries: Seq<SourceEntry>,
) -> Map<Seq<char>, data_source::SourceValue>
    decreases entries.len(),
{
    if entries.len() == 0 {
        m
    } else {
        with_file(
            with_entries(m, entries.drop_last()),
            entries.last().name@,
            entries.last().path@,
        )
    }
}

/// The sources that the settings name.
pub open spec fn entries_of(entries: Option<Vec<SourceEntry>>) -> Seq<SourceEntry> {
    match entries {
        Some(v) => v@,
        None => Seq::empty(),
    }
}

/// The registry to begin with: the sources that the settings name, and then the files of
/// the served directories.
pub fn build_registry_from_config(entries: &Option<Vec<SourceEntry>>, files: &Vec<String>) -> (r:
    DataSourceRegistry<FileSource>)
    ensures
        r.wf(),
        sources_of(r@) == with_files(
            with_entries(Map::empty(), entries_of(*entries)),
            crate::text::texts(files@),
        ),
{
    let mut registry: DataSourceRegistry<FileSource> = DataSourceRegistry::new();
    assert(sources_of(registry@) =~= Map::<Seq<char>, data_source::SourceValue>::empty());
    match entries {
        Some(list) => {
            assert(list@.take(0) =~= Seq::empty());
            for i in 0..list.len()
                invariant
                    registry.wf(),
                    sources_of(registry@) == with_entries(Map::empty(), list@.take(i as int)),
            {
                assert(list@.take(i + 1).drop_last() =~= list@.take(i as int));
                let _ = offer_file(&mut registry, list[i].name.as_str(), list[i].path.as_str());
            }
            assert(list@.take(list@.len() as int) =~= list@);
        },
        None => {},
    }
    scan_and_auto_mount(&mut registry, files);
    registry
}

proof fn lemma_files_keep(
    m: Map<Seq<char>, data_source::SourceValue>,
    paths: Seq<Seq<char>>,
    name: Seq<char>,
)
    requires
        m.dom().contains(name),
    ensures
        with_files(m, paths).dom().contains(name),
        with_files(m, paths)[name] == m[name],
    decreases paths.len(),
{
    if paths.len() > 0 {
        lemma_files_keep(m, paths.drop_last(), name);
    }
}

/// A source that the settings name stays, whatever files there are.
pub proof fn law_named_sources_stay(
    entries: Seq<SourceEntry>,
    paths: Seq<Seq<char>>,
    name: Seq<char>,
)
    requires
        with_entries(Map::empty(), entries).dom().contains(name),
    ensures
        with_files(with_entries(Map::empty(), entries), paths).dom().contains(name),
        with_files(with_entries(Map::empty(), entries), paths)[name] == with_entries(
            Map::empty(),
            entries,
        )[name],
{
    lemma_files_keep(with_entries(Map::empty(), entries), paths, name);
}

// ─── Several tiles at once ───

/// The jobs for a request for several tiles of the raster at a path.
pub fn batch_tiles<F: Copy>(req: &BatchRequest, path: &str) -> (jobs: Vec<BatchTileJob<F>>)
    ensures
        jobs@.len() == req.tiles@.len(),
        forall|i: int|
            0 <= i < jobs@.len() ==> {
                let job = #[trigger] jobs@[i];
                let tile = req.tiles@[i];
                &&& job.path@ == path@
                &&& job.z == tile.z
                &&& job.x == tile.x
                &&& job.y == tile.y
                &&& job.bands@ == data_source::asked_bands(req.bands)
                &&& job.resampling == data_source::asked_mode(req.resampling)
                &&& data_source::is_asked_stretch(req.stretch, None, job.stretch)
                &&& job.priority == tile.z
            },
{
    let mode: ResamplingMode = requested_mode(&req.resampling);
    let mut jobs: Vec<BatchTileJob<F>> = Vec::new();
    for i in 0..req.tiles.len()
        invariant
            mode == data_source::asked_mode(req.resampling),
            jobs@.len() == i,
            forall|k: int|
                0 <= k < i ==> {
                    let job = #[trigger] jobs@[k];
                    let tile = req.tiles@[k];
                    &&& job.path@ == path@
                    &&& job.z == tile.z
                    &&& job.x == tile.x
                    &&& job.y == tile.y
                    &&& job.bands@ == data_source::asked_bands(req.bands)
                    &&& job.resampling == data_source::asked_mode(req.resampling)
                    &&& data_source::is_asked_stretch(req.stretch, None, job.stretch)
                    &&& job.priority == tile.z
                },
    {
        let tile: BatchTileReq = req.tiles[i];
        jobs.push(
            BatchTileJob {
                path: path.to_owned(),
                z: tile.z,
                x: tile.x,
                y: tile.y,
                bands: requested_bands(&req.bands),
                resampling: mode,
                stretch: requested_stretch(&req.stretch, None),
                priority: tile.z,
            },
        );
    }
    jobs
}

// ─── What holds of requests and of the sources that are served ───

/// The pieces between commas that are numbers are the bands of a request, in order; white
/// space around a number does not count, and a piece that is no number is left out.
pub proof fn law_bands_are_read_in_order(
    text: &str,
    bands: Vec<u32>,
    more: &str,
    next: Vec<u32>,
    piece: Seq<char>,
    trimmed: &str,
    number: Option<u64>,
)
    requires
        call_ensures(deserialize_bands, (text,), bands),
        call_ensures(deserialize_bands, (more,), next),
        more@ == text@ + seq![','] + piece,
        !piece.contains(','),
        trimmed@ == crate::text::trim_spec(piece),
        call_ensures(parse_unsigned, (trimmed, 0xFFFF_FFFFu64), number),
    ensures
        number is Some ==> next@ == bands@.push(number->Some_0 as u32),
        number is None ==> next@ == bands@,
{
    crate::text::law_pieces_add_up(text@, piece, ',');
    let (p, q) = (crate::text::split_spec(text@, ','), crate::text::split_spec(more@, ','));
    crate::text::law_pieces_add_up(piece, piece, ',');
    assert(q =~= p.push(piece));
    assert(q.drop_last() =~= p);
    assert(q.last() == piece);
}

/// A text that is one number lists one band, and one without commas that is no number none.
pub proof fn law_single_bands(
    text: &str,
    bands: Vec<u32>,
    trimmed: &str,
    number: Option<u64>,
)
    requires
        call_ensures(deserialize_bands, (text,), bands),
        !text@.contains(','),
        trimmed@ == crate::text::trim_spec(text@),
        call_ensures(parse_unsigned, (trimmed, 0xFFFF_FFFFu64), number),
    ensures
        number is Some ==> bands@ == seq![number->Some_0 as u32],
        number is None ==> bands@.len() == 0,
{
    crate::text::law_pieces_add_up(text@, text@, ',');
    let p = crate::text::split_spec(text@, ',');
    assert(p =~= seq![text@]);
    assert(p.drop_last() =~= Seq::empty());
    assert(numbers_in(p.drop_last()) =~= Seq::empty());
}

/// The sources of a registry as values have the names of the sources, and each value tells the
/// kind, the name and the path of its source.
pub proof fn law_values_of_sources(m: Map<Seq<char>, FileSource>, name: Seq<char>)
    ensures
        sources_of(m).dom() == m.dom(),
        m.dom().contains(name) ==> match m[name] {
            FileSource::Raster(s) => sources_of(m)[name].data_type is Raster && sources_of(
                m,
            )[name].name == s.name@ && sources_of(m)[name].path == s.path@,
            FileSource::Vector(s) => sources_of(m)[name].data_type is Vector && sources_of(
                m,
            )[name].name == s.name@ && sources_of(m)[name].path == s.path@ && sources_of(
                m,
            )[name].ext == s.ext@,
        },
{
    assert(sources_of(m).dom() =~= m.dom());
}

/// A file that is offered under a free name is served under it where its extension, in small
/// letters, is that of a raster or of vector data. A name that is taken keeps its source, and
/// so does every other name; a file of another kind changes nothing.
pub proof fn law_files_that_are_taken(
    m: Map<Seq<char>, data_source::SourceValue>,
    name: Seq<char>,
    path: Seq<char>,
    other: Seq<char>,
)
    ensures
        ({
            let ext = crate::text::lowered(crate::paths::extension(path));
            let after = with_file(m, name, path);
            let raster = ext == "tif"@ || ext == "tiff"@;
            let vector = ext == "geojson"@ || ext == "json"@ || ext == "shp"@ || ext == "wkt"@
                || ext == "kml"@ || ext == "kmz"@;
            &&& m.dom().contains(name) || !(raster || vector) ==> after == m
            &&& !m.dom().contains(name) && (raster || vector) ==> {
                &&& after.dom() == m.dom().insert(name)
                &&& after[name].name == name
                &&& after[name].path == path
                &&& after[name].data_type is Raster <==> raster
                &&& vector ==> after[name].ext == ext
            }
            &&& other != name ==> (after.dom().contains(other) <==> m.dom().contains(other))
                && after[other] == m[other]
        }),
{
    reveal_strlit("tif");
    reveal_strlit("tiff");
    reveal_strlit("geojson");
    reveal_strlit("json");
    reveal_strlit("shp");
    reveal_strlit("wkt");
    reveal_strlit("kml");
    reveal_strlit("kmz");
    assert("tif"@[0] == 't' && "tiff"@[0] == 't');
    assert("geojson"@[0] == 'g' && "json"@[0] == 'j' && "shp"@[0] == 's' && "wkt"@[0] == 'w'
        && "kml"@[0] == 'k' && "kmz"@[0] == 'k');
    let after = with_file(m, name, path);
    let ext = crate::text::lowered(crate::paths::extension(path));
    if !m.dom().contains(name) && data_source::source_value(name, path, ext) is Some {
        assert(after.dom() =~= m.dom().insert(name));
    }
}

/// Offering files one after the other: one more file is offered under its own name, unless it
/// is the description of the interface. Without files nothing changes.
pub proof fn law_files_are_offered_in_turn(
    m: Map<Seq<char>, data_source::SourceValue>,
    paths: Seq<Seq<char>>,
    d: Seq<char>,
    name: Seq<char>,
)
    requires
        crate::paths::is_dir_part(d),
        name.len() > 0,
        !name.contains('/'),
        name.last() != '.',
    ensures
        with_files(m, Seq::empty()) == m,
        name == "openapi.json"@ ==> with_files(m, paths.push(d + name)) == with_files(m, paths),
        name != "openapi.json"@ ==> with_files(m, paths.push(d + name)) == with_file(
            with_files(m, paths),
            name,
            d + name,
        ),
{
    crate::paths::lemma_name_at_end(d + name, d, name);
    assert(paths.push(d + name).drop_last() =~= paths);
}

/// Offering the sources of the settings one after the other: one more is offered under the
/// name that it is given. Without any nothing changes.
pub proof fn law_entries_are_offered_in_turn(
    m: Map<Seq<char>, data_source::SourceValue>,
    entries: Seq<SourceEntry>,
    entry: SourceEntry,
)
    ensures
        with_entries(m, Seq::empty()) == m,
        with_entries(m, entries.push(entry)) == with_file(
            with_entries(m, entries),
            entry.name@,
            entry.path@,
        ),
{
    assert(entries.push(entry).drop_last() =~= entries);
}

/// The extension of a path, in small letters, is that of a raster or of vector data.
pub open spec fn is_served_kind(path: Seq<char>) -> bool {
    let ext = crate::text::lowered(crate::paths::extension(path));
    ext == "tif"@ || ext == "tiff"@ || ext == "geojson"@ || ext == "json"@ || ext == "shp"@ || ext
        == "wkt"@ || ext == "kml"@ || ext == "kmz"@
}

/// An entry of the settings is offered under a name.
pub open spec fn is_named(entry: SourceEntry, name: Seq<char>) -> bool {
    entry.name@ == name && is_served_kind(entry.path@)
}

/// What one more file makes of the source under a name.
proof fn lemma_taken(
    m: Map<Seq<char>, data_source::SourceValue>,
    own: Seq<char>,
    path: Seq<char>,
    name: Seq<char>,
)
    ensures
        ({
            let after = with_file(m, own, path);
            &&& after.dom().contains(name) <==> m.dom().contains(name) || (own == name
                && is_served_kind(path))
            &&& m.dom().contains(name) ==> after[name] == m[name]
            &&& !m.dom().contains(name) && own == name && is_served_kind(path)
                ==> after[name].path == path
        }),
{
    law_files_that_are_taken(m, own, path, name);
}

proof fn lemma_entries_served(
    m: Map<Seq<char>, data_source::SourceValue>,
    entries: Seq<SourceEntry>,
    name: Seq<char>,
)
    requires
        !m.dom().contains(name),
    ensures
        with_entries(m, entries).dom().contains(name) <==> exists|i: int|
            0 <= i < entries.len() && is_named(#[trigger] entries[i], name),
    decreases entries.len(),
{
    if entries.len() > 0 {
        let before = entries.drop_last();
        let last = entries.last();
        lemma_entries_served(m, before, name);
        let b = with_entries(m, before);
        lemma_taken(b, last.name@, last.path@, name);
        let n = entries.len() - 1;
        assert(entries[n] == last);
        if b.dom().contains(name) {
            let i = choose|i: int| 0 <= i < before.len() && is_named(#[trigger] before[i], name);
            assert(is_named(entries[i], name));
        }
        if exists|i: int| 0 <= i < entries.len() && is_named(#[trigger] entries[i], name) {
            let i = choose|i: int| 0 <= i < entries.len() && is_named(#[trigger] entries[i], name);
            if i < n {
                assert(is_named(before[i], name));
            }
        }
    }
}

proof fn lemma_first_entry(
    m: Map<Seq<char>, data_source::SourceValue>,
    entries: Seq<SourceEntry>,
    name: Seq<char>,
    i: int,
)
    requires
        !m.dom().contains(name),
        0 <= i < entries.len(),
        is_named(entries[i], name),
        forall|j: int| 0 <= j < i ==> !is_named(#[trigger] entries[j], name),
    ensures
        with_entries(m, entries).dom().contains(name),
        with_entries(m, entries)[name].path == entries[i].path@,
    decreases entries.len(),
{
    let before = entries.drop_last();
    let last = entries.last();
    let b = with_entries(m, before);
    lemma_taken(b, last.name@, last.path@, name);
    if i < entries.len() - 1 {
        assert forall|j: int| 0 <= j < i implies !is_named(#[trigger] before[j], name) by {
            assert(entries[j] == before[j]);
        }
        lemma_first_entry(m, before, name, i);
    } else {
        lemma_entries_served(m, before, name);
        if b.dom().contains(name) {
            let k = choose|k: int| 0 <= k < before.len() && is_named(#[trigger] before[k], name);
            assert(is_named(entries[k], name));
        }
    }
}

/// A file of a list is offered under a name.
pub open spec fn is_offered(path: Seq<char>, name: Seq<char>) -> bool {
    crate::paths::has_name(path) && crate::paths::last_segment(path) == name && name
        != "openapi.json"@ && is_served_kind(path)
}

proof fn lemma_files_served(
    m: Map<Seq<char>, data_source::SourceValue>,
    paths: Seq<Seq<char>>,
    name: Seq<char>,
)
    ensures
        with_files(m, paths).dom().contains(name) <==> m.dom().contains(name) || exists|i: int|
            0 <= i < paths.len() && is_offered(#[trigger] paths[i], name),
        m.dom().contains(name) ==> with_files(m, paths)[name] == m[name],
    decreases paths.len(),
{
    if paths.len() > 0 {
        let before = paths.drop_last();
        let last = paths.last();
        lemma_files_served(m, before, name);
        let b = with_files(m, before);
        lemma_taken(b, crate::paths::last_segment(last), last, name);
        let n = paths.len() - 1;
        assert(paths[n] == last);
        if b.dom().contains(name) && !m.dom().contains(name) {
            let i = choose|i: int| 0 <= i < before.len() && is_offered(#[trigger] before[i], name);
            assert(is_offered(paths[i], name));
        }
        if exists|i: int| 0 <= i < paths.len() && is_offered(#[trigger] paths[i], name) {
            let i = choose|i: int| 0 <= i < paths.len() && is_offered(#[trigger] paths[i], name);
            if i < n {
                assert(is_offered(before[i], name));
            }
        }
    }
}

proof fn lemma_first_file(
    m: Map<Seq<char>, data_source::SourceValue>,
    paths: Seq<Seq<char>>,
    name: Seq<char>,
    i: int,
)
    requires
        !m.dom().contains(name),
        0 <= i < paths.len(),
        is_offered(paths[i], name),
        forall|j: int| 0 <= j < i ==> !is_offered(#[trigger] paths[j], name),
    ensures
        with_files(m, paths).dom().contains(name),
        with_files(m, paths)[name].path == paths[i],
    decreases paths.len(),
{
    let before = paths.drop_last();
    let last = paths.last();
    let b = with_files(m, before);
    lemma_taken(b, crate::paths::last_segment(last), last, name);
    if i < paths.len() - 1 {
        assert forall|j: int| 0 <= j < i implies !is_offered(#[trigger] before[j], name) by {
            assert(paths[j] == before[j]);
        }
        lemma_first_file(m, before, name, i);
    } else {
        lemma_files_served(m, before, name);
        if b.dom().contains(name) {
            let k = choose|k: int| 0 <= k < before.len() && is_offered(#[trigger] before[k], name);
            assert(is_offered(paths[k], name));
        }
    }
}

/// To begin with, a name is served if and only if the settings give it to a file of a kind that
/// is served, or a file of such a kind in the directories has it. The first source of the
/// settings with the name is the one that is served, and where there is none, the first file.
pub proof fn law_sources_to_begin_with(
    entries: &Option<Vec<SourceEntry>>,
    files: &Vec<String>,
    r: DataSourceRegistry<FileSource>,
    name: Seq<char>,
    i: int,
)
    requires
        call_ensures(build_registry_from_config, (entries, files), r),
    ensures
        r@.dom().contains(name) <==> (entries is Some && exists|k: int|
            0 <= k < entries->Some_0@.len() && is_named(#[trigger] entries->Some_0@[k], name))
            || exists|k: int| 0 <= k < files@.len() && is_offered((#[trigger] files@[k])@, name),
        entries is Some && 0 <= i < entries->Some_0@.len() && is_named(
            entries->Some_0@[i],
            name,
        ) && (forall|j: int| 0 <= j < i ==> !is_named(#[trigger] entries->Some_0@[j], name))
            ==> r@.dom().contains(name) && r@[name]@.path == entries->Some_0@[i].path@,
        (entries is None || forall|k: int|
            0 <= k < entries->Some_0@.len() ==> !is_named(#[trigger] entries->Some_0@[k], name))
            && 0 <= i < files@.len() && is_offered(files@[i]@, name) && (forall|j: int|
            0 <= j < i ==> !is_offered((#[trigger] files@[j])@, name)) ==> r@.dom().contains(name)
            && r@[name]@.path == files@[i]@,
{
    let none = Map::<Seq<char>, data_source::SourceValue>::empty();
    let list = entries_of(*entries);
    let named = with_entries(none, list);
    let paths = crate::text::texts(files@);
    lemma_entries_served(none, list, name);
    lemma_files_served(named, paths, name);
    law_values_of_sources(r@, name);
    assert(r@.dom().contains(name) ==> sources_of(r@)[name] == r@[name]@);
    assert(paths.len() == files@.len());
    assert forall|k: int| 0 <= k < paths.len() implies #[trigger] paths[k] == files@[k]@ by {}
    if exists|k: int| 0 <= k < paths.len() && is_offered(#[trigger] paths[k], name) {
        let k = choose|k: int| 0 <= k < paths.len() && is_offered(#[trigger] paths[k], name);
        assert(is_offered(files@[k]@, name));
    }
    if exists|k: int| 0 <= k < files@.len() && is_offered((#[trigger] files@[k])@, name) {
        let k = choose|k: int| 0 <= k < files@.len() && is_offered((#[trigger] files@[k])@, name);
        assert(is_offered(paths[k], name));
    }
    if entries is Some && 0 <= i < list.len() && is_named(list[i], name) && (forall|j: int|
        0 <= j < i ==> !is_named(#[trigger] entries->Some_0@[j], name)) {
        assert forall|j: int| 0 <= j < i implies !is_named(#[trigger] list[j], name) by {
            assert(!is_named(entries->Some_0@[j], name));
        }
        lemma_first_entry(none, list, name, i);
    }
    if !named.dom().contains(name) && 0 <= i < files@.len() && is_offered(files@[i]@, name) && (
    forall|j: int| 0 <= j < i ==> !is_offered((#[trigger] files@[j])@, name)) {
        assert(is_offered(paths[i], name));
        assert forall|j: int| 0 <= j < i implies !is_offered(#[trigger] paths[j], name) by {
            assert(!is_offered(files@[j]@, name));
        }
        lemma_first_file(named, paths, name, i);
    }
}

/// The jobs of a request for several tiles are those of the tiles, in order: each at its own
/// place, of the raster at the path, with the bands and the mode of the request, and with its
/// zoom level as priority.
pub proof fn law_jobs_of_a_request<F: Copy>(
    req: &BatchRequest,
    path: &str,
    jobs: Vec<BatchTileJob<F>>,
    mode: ResamplingMode,
    bands: Vec<u32>,
    i: int,
)
    requires
        call_ensures(batch_tiles::<F>, (req, path), jobs),
        call_ensures(requested_mode, (&req.resampling,), mode),
        call_ensures(requested_bands, (&req.bands,), bands),
        0 <= i < req.tiles@.len(),
    ensures
        jobs@.len() == req.tiles@.len(),
        jobs@[i].path@ == path@,
        jobs@[i].z == req.tiles@[i].z,
        jobs@[i].x == req.tiles@[i].x,
        jobs@[i].y == req.tiles@[i].y,
        jobs@[i].bands@ == bands@,
        jobs@[i].resampling == mode,
        jobs@[i].stretch is Some <==> req.stretch is Some,
        jobs@[i].priority == req.tiles@[i].z,
{
}

} // verus!
