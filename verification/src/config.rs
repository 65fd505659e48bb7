//! The settings of the server: from its arguments, its file, and defaults.

use crate::numbers::decimal_text;
use crate::text::concat2;
use vstd::prelude::*;

verus! {

// ─── The settings file ───

/// The part of the settings file about the server.
#[derive(Debug, Clone)]
pub struct ServerSection {
    pub port: Option<u16>,
    pub address: Option<String>,
    pub threads: Option<u32>,
    pub root: Option<String>,
    pub cache_max_age: Option<i32>,
    pub cors: Option<bool>,
    pub gzip: Option<bool>,
    pub no_dotfiles: Option<bool>,
    pub log_format: Option<String>,
    pub allowed_paths: Option<Vec<String>>,
}

impl Default for ServerSection {
    fn default() -> (s: Self)
        ensures
            s.port is None,
            s.address is None,
            s.threads is None,
            s.root is None,
            s.cache_max_age is None,
            s.cors is None,
            s.gzip is None,
            s.no_dotfiles is None,
            s.log_format is None,
            s.allowed_paths is None,
    {
        ServerSection {
            port: None,
            address: None,
            threads: None,
            root: None,
            cache_max_age: None,
            cors: None,
            gzip: None,
            no_dotfiles: None,
            log_format: None,
            allowed_paths: None,
        }
    }
}

/// A source that the settings file names.
#[derive(Debug, Clone)]
pub struct SourceEntry {
    pub name: String,
    pub path: String,
}

/// The part of the settings file about the caches.
#[derive(Debug, Clone)]
pub struct CacheSection {
    pub l2_size_mb: Option<u64>,
    pub disk_dir: Option<String>,
}

impl Default for CacheSection {
    fn default() -> (s: Self)
        ensures
            s.l2_size_mb == Some(512u64),
            s.disk_dir is None,
    {
        CacheSection { l2_size_mb: Some(512), disk_dir: None }
    }
}

/// The settings file.
#[derive(Debug, Clone)]
pub struct AppConfig {
    pub server: Option<ServerSection>,
    pub sources: Option<Vec<SourceEntry>>,
    pub cache: Option<CacheSection>,
}

impl Default for AppConfig {
    fn default() -> (c: Self)
        ensures
            c.server is None,
            c.sources is None,
            c.cache is Some,
            c.cache->Some_0.l2_size_mb == Some(512u64),
            c.cache->Some_0.disk_dir is None,
    {
        AppConfig { server: None, sources: None, cache: Some(CacheSection::default()) }
    }
}

/// The settings file to begin with.
pub fn default_config() -> (c: AppConfig)
    ensures
        c.server matches Some(s) && {
            &&& s.port == Some(8080u16)
            &&& s.address is Some && s.address->Some_0@ == "0.0.0.0"@
            &&& s.threads == Some(4u32)
            &&& s.root is Some && s.root->Some_0@ == "."@
            &&& s.cache_max_age == Some(3600i32)
            &&& s.cors == Some(false)
            &&& s.gzip == Some(false)
            &&& s.no_dotfiles == Some(false)
            &&& s.log_format is Some && s.log_format->Some_0@ == "default"@
            &&& s.allowed_paths is None
        },
        c.sources matches Some(v) && {
            &&& v@.len() == 2
            &&& v@[0].name@ == "example-raster"@
            &&& v@[0].path@ == "./data/raster.tif"@
            &&& v@[1].name@ == "example-vector"@
            &&& v@[1].path@ == "./data/vector.geojson"@
        },
        c.cache matches Some(k) && {
            &&& k.l2_size_mb == Some(512u64)
            &&& k.disk_dir is Some && k.disk_dir->Some_0@ == "./cache/tiles"@
        },
{
    let mut sources: Vec<SourceEntry> = Vec::new();
    sources.push(
        SourceEntry { name: "example-raster".to_owned(), path: "./data/raster.tif".to_owned() },
    );
    sources.push(
        SourceEntry {
            name: "example-vector".to_owned(),
            path: "./data/vector.geojson".to_owned(),
        },
    );
    AppConfig {
        server: Some(
            ServerSection {
                port: Some(8080),
                address: Some("0.0.0.0".to_owned()),
                threads: Some(4),
                root: Some(".".to_owned()),
                cache_max_age: Some(3600),
                cors: Some(false),
                gzip: Some(false),
                no_dotfiles: Some(false),
                log_format: Some("default".to_owned()),
                allowed_paths: None,
            },
        ),
        sources: Some(sources),
        cache: Some(
            CacheSection { l2_size_mb: Some(512), disk_dir: Some("./cache/tiles".to_owned()) },
        ),
    }
}

// ─── The arguments ───

/// What the program is told to do besides serving.
#[derive(Debug, Clone)]
pub enum Commands {
    /// Write a settings file to begin with.
    Init,
    /// Write the description of the interface to a file.
    ExportOpenapi { output: String },
}

/// The arguments of the program.
pub struct Cli {
    pub command: Option<Commands>,
    pub config: Option<String>,
    pub threads: Option<u32>,
    pub full_data: Option<bool>,
    pub port: Option<u16>,
    pub address: Option<String>,
    pub root: Option<String>,
    pub dir: Option<String>,
    pub cache_max_age: Option<i32>,
    pub cors: Option<bool>,
    pub gzip: Option<bool>,
    pub no_dotfiles: Option<bool>,
    pub log_format: Option<String>,
    pub l2_cache_mb: Option<u64>,
    pub allow_path: Option<Vec<String>>,
}

// ─── The settings ───

/// The settings of a server inside of another program.
#[derive(Debug, Clone)]
pub struct ServerConfig {
    pub threads: u32,
    pub cache_max_age: i32,
    pub cors: bool,
    pub gzip: bool,
    pub no_dotfiles: bool,
    pub l2_cache_mb: u64,
    pub disk_cache_dir: Option<String>,
    pub allowed_paths: Vec<String>,
}

impl Default for ServerConfig {
    fn default() -> (c: Self)
        ensures
            c.threads == 4,
            c.cache_max_age == 3600,
            c.cors,
            !c.gzip,
            !c.no_dotfiles,
            c.l2_cache_mb == 512,
            c.disk_cache_dir is None,
            c.allowed_paths@.len() == 0,
    {
        ServerConfig {
            threads: 4,
            cache_max_age: 3600,
            cors: true,
            gzip: false,
            no_dotfiles: false,
            l2_cache_mb: 512,
            disk_cache_dir: None,
            allowed_paths: Vec::new(),
        }
    }
}

/// An argument, else what the file says, else a default.
pub open spec fn merged<T>(arg: Option<T>, file: Option<T>, default: T) -> T {
    match arg {
        Some(v) => v,
        None => match file {
            Some(v) => v,
            None => default,
        },
    }
}

fn merge<T: Copy>(arg: Option<T>, file: Option<T>, default: T) -> (v: T)
    ensures
        v == merged(arg, file, default),
{
    match arg {
        Some(v) => v,
        None => match file {
            Some(v) => v,
            None => default,
        },
    }
}

fn merge_text(arg: &Option<String>, file: &Option<String>, default: &str) -> (v: String)
    ensures
        v@ == merged(crate::text::text_of(*arg), crate::text::text_of(*file), default@),
{
    match arg {
        Some(v) => v.as_str().to_owned(),
        None => match file {
            Some(v) => v.as_str().to_owned(),
            None => default.to_owned(),
        },
    }
}

/// Texts that may be missing, as values.
pub open spec fn texts_of(t: Option<Vec<String>>) -> Option<Seq<Seq<char>>> {
    match t {
        Some(v) => Some(crate::text::texts(v@)),
        None => None,
    }
}

fn copy_texts(v: &Vec<String>) -> (r: Vec<String>)
    ensures
        crate::text::texts(r@) == crate::text::texts(v@),
{
    let mut r: Vec<String> = Vec::new();
    for i in 0..v.len()
        invariant
            r@.len() == i,
            forall|k: int| 0 <= k < i ==> #[trigger] r@[k]@ == v@[k]@,
    {
        r.push(v[i].as_str().to_owned());
    }
    assert(crate::text::texts(r@) =~= crate::text::texts(v@));
    r
}

fn merge_texts(arg: &Option<Vec<String>>, file: &Option<Vec<String>>) -> (v: Vec<String>)
    ensures
        crate::text::texts(v@) == merged(texts_of(*arg), texts_of(*file), Seq::empty()),
{
    match arg {
        Some(v) => copy_texts(v),
        None => match file {
            Some(v) => copy_texts(v),
            None => {
                let v: Vec<String> = Vec::new();
                assert(crate::text::texts(v@) =~= Seq::empty());
                v
            },
        },
    }
}

/// What the program serves, and how.
pub struct Settings {
    pub port: u16,
    pub address: String,
    pub root: String,
    pub server: ServerConfig,
}

/// The part of a settings file about the server, empty where it is missing.
pub open spec fn server_of(file: AppConfig) -> ServerSection {
    match file.server {
        Some(s) => s,
        None => ServerSection {
            port: None,
            address: None,
            threads: None,
            root: None,
            cache_max_age: None,
            cors: None,
            gzip: None,
            no_dotfiles: None,
            log_format: None,
            allowed_paths: None,
        },
    }
}

/// The part of a settings file about the caches, empty where it is missing.
pub open spec fn cache_of(file: AppConfig) -> CacheSection {
    match file.cache {
        Some(s) => s,
        None => CacheSection { l2_size_mb: None, disk_dir: None },
    }
}

/// The directory to serve: the one that is named without an option, else that of the
/// option, else that of the file, else the current one.
pub open spec fn root_of(cli: Cli, file: AppConfig) -> Seq<char> {
    match cli.dir {
        Some(d) => d@,
        None => merged(
            crate::text::text_of(cli.root),
            crate::text::text_of(server_of(file).root),
            "."@,
        ),
    }
}

/// The settings for arguments and a settings file: an argument counts before the file, and
/// the file before the default.
pub fn resolve_settings(cli: &Cli, file: &AppConfig) -> (s: Settings)
    ensures
        ({
            let server = server_of(*file);
            let cache = cache_of(*file);
            &&& s.port == merged(cli.port, server.port, 8080u16)
            &&& s.address@ == merged(
                crate::text::text_of(cli.address),
                crate::text::text_of(server.address),
                "0.0.0.0"@,
            )
            &&& s.root@ == root_of(*cli, *file)
            &&& s.server.threads == merged(cli.threads, server.threads, 4u32)
            &&& s.server.cache_max_age == merged(cli.cache_max_age, server.cache_max_age, 3600i32)
            &&& s.server.cors == merged(cli.cors, server.cors, false)
            &&& s.server.gzip == merged(cli.gzip, server.gzip, false)
            &&& s.server.no_dotfiles == merged(cli.no_dotfiles, server.no_dotfiles, false)
            &&& s.server.l2_cache_mb == merged(cli.l2_cache_mb, cache.l2_size_mb, 512u64)
            &&& crate::text::text_of(s.server.disk_cache_dir) == crate::text::text_of(cache.disk_dir)
            &&& crate::text::texts(s.server.allowed_paths@) == merged(
                texts_of(cli.allow_path),
                texts_of(server.allowed_paths),
                Seq::empty(),
            )
        }),
{
    let empty: ServerSection = ServerSection::default();
    let server: &ServerSection = match &file.server {
        Some(s) => s,
        None => &empty,
    };
    let no_cache: CacheSection = CacheSection { l2_size_mb: None, disk_dir: None };
    let cache: &CacheSection = match &file.cache {
        Some(s) => s,
        None => &no_cache,
    };
    let root: String = match &cli.dir {
        Some(d) => d.as_str().to_owned(),
        None => merge_text(&cli.root, &server.root, "."),
    };
    let disk_cache_dir: Option<String> = match &cache.disk_dir {
        Some(d) => Some(d.as_str().to_owned()),
        None => None,
    };
    Settings {
        port: merge(cli.port, server.port, 8080),
        address: merge_text(&cli.address, &server.address, "0.0.0.0"),
        root,
        server: ServerConfig {
            threads: merge(cli.threads, server.threads, 4),
            cache_max_age: merge(cli.cache_max_age, server.cache_max_age, 3600),
            cors: merge(cli.cors, server.cors, false),
            gzip: merge(cli.gzip, server.gzip, false),
            no_dotfiles: merge(cli.no_dotfiles, server.no_dotfiles, false),
            l2_cache_mb: merge(cli.l2_cache_mb, cache.l2_size_mb, 512),
            disk_cache_dir,
            allowed_paths: merge_texts(&cli.allow_path, &server.allowed_paths),
        },
    }
}

/// An argument that is given counts, whatever the file says.
pub proof fn law_arguments_win<T>(arg: T, file: Option<T>, default: T)
    ensures
        merged(Some(arg), file, default) == arg,
        merged(None, Some(arg), default) == arg,
        merged(None, None, default) == default,
{
}

/// The directories that are served: the root, and the ones that are allowed besides.
pub fn served_dirs(root: &str, allowed_paths: &Vec<String>) -> (dirs: Vec<String>)
    ensures
        crate::text::texts(dirs@) == seq![root@] + crate::text::texts(allowed_paths@),
{
    let mut dirs: Vec<String> = Vec::new();
    dirs.push(root.to_owned());
    let mut rest: Vec<String> = copy_texts(allowed_paths);
    let ghost tail = rest@;
    dirs.append(&mut rest);
    proof {
        let all = crate::text::texts(dirs@);
        assert forall|i: int| 0 <= i < all.len() implies all[i] == (seq![root@]
            + crate::text::texts(allowed_paths@))[i] by {
            if i > 0 {
                assert(dirs@[i] == tail[i - 1]);
                assert(crate::text::texts(tail)[i - 1] == tail[i - 1]@);
            }
        }
        assert(crate::text::texts(tail).len() == tail.len());
        assert(all =~= seq![root@] + crate::text::texts(allowed_paths@));
    }
    dirs
}

/// The number of worker threads: at least one.
pub fn worker_threads(threads: u32) -> (n: u32)
    ensures
        n == (if threads >= 1 {
            threads
        } else {
            1
        }),
{
    if threads >= 1 {
        threads
    } else {
        1
    }
}

// ─── The addresses ───

/// The address on which the server listens.
pub enum HostKind {
    /// Every address of the older kind.
    AnyV4,
    /// Every address.
    AnyV6,
    LocalV4,
    LocalV6,
    /// Another address of the older kind, by its text.
    V4(String),
    /// Another address of the newer kind, by its text.
    V6(String),
}

/// The hosts under which a server can be reached from its own machine.
pub open spec fn hosts(kind: HostKind) -> Seq<Seq<char>> {
    match kind {
        HostKind::AnyV4 => seq!["127.0.0.1"@, "localhost"@],
        HostKind::AnyV6 => seq!["127.0.0.1"@, "localhost"@, "[::1]"@],
        HostKind::LocalV4 => seq!["127.0.0.1"@],
        HostKind::LocalV6 => seq!["[::1]"@],
        HostKind::V4(ip) => seq![ip@],
        HostKind::V6(ip) => seq!["["@ + ip@ + "]"@],
    }
}

/// The address of a host and a port.
pub open spec fn url_of(host: Seq<char>, port: u16) -> Seq<char> {
    "http://"@ + host + ":"@ + crate::numbers::decimal(port as nat)
}

fn url(host: &str, port: u16) -> (u: String)
    ensures
        u@ == url_of(host@, port),
{
    let mut u: String = concat2("http://", host);
    let number: String = decimal_text(port as u64);
    u.append(":");
    u.append(number.as_str());
    u
}

/// The addresses under which a server can be opened.
pub fn access_urls(kind: &HostKind, port: u16) -> (urls: Vec<String>)
    ensures
        urls@.len() == hosts(*kind).len(),
        forall|i: int|
            0 <= i < urls@.len() ==> #[trigger] urls@[i]@ == url_of(hosts(*kind)[i], port),
{
    let mut urls: Vec<String> = Vec::new();
    match kind {
        HostKind::AnyV4 => {
            urls.push(url("127.0.0.1", port));
            urls.push(url("localhost", port));
        },
        HostKind::AnyV6 => {
            urls.push(url("127.0.0.1", port));
            urls.push(url("localhost", port));
            urls.push(url("[::1]", port));
        },
        HostKind::LocalV4 => {
            urls.push(url("127.0.0.1", port));
        },
        HostKind::LocalV6 => {
            urls.push(url("[::1]", port));
        },
        HostKind::V4(ip) => {
            urls.push(url(ip.as_str(), port));
        },
        HostKind::V6(ip) => {
            let open: String = concat2("[", ip.as_str());
            let host: String = concat2(open.as_str(), "]");
            urls.push(url(host.as_str(), port));
        },
    }
    urls
}

/// Each setting is that of its own argument, else that of its own entry of the file, else the
/// default: port 8080 at every address, four threads, an hour in the caches of clients, no
/// answers to other origins, no compression, and every file shown.
pub proof fn law_settings_of_the_server(cli: &Cli, file: &AppConfig, s: Settings)
    requires
        call_ensures(resolve_settings, (cli, file), s),
    ensures
        cli.port is Some ==> s.port == cli.port->Some_0,
        cli.port is None && file.server is Some && file.server->Some_0.port is Some ==> s.port
            == file.server->Some_0.port->Some_0,
        cli.port is None && (file.server is None || file.server->Some_0.port is None) ==> s.port
            == 8080,
        cli.address is Some ==> s.address@ == cli.address->Some_0@,
        cli.address is None
            && file.server is Some
            && file.server->Some_0.address is Some ==> s.address@
            == file.server->Some_0.address->Some_0@,
        cli.address is None
            && (file.server is None || file.server->Some_0.address is None) ==> s.address@
            == "0.0.0.0"@,
        cli.threads is Some ==> s.server.threads == cli.threads->Some_0,
        cli.threads is None
            && file.server is Some
            && file.server->Some_0.threads is Some ==> s.server.threads
            == file.server->Some_0.threads->Some_0,
        cli.threads is None
            && (file.server is None || file.server->Some_0.threads is None) ==> s.server.threads
            == 4,
        cli.cache_max_age is Some ==> s.server.cache_max_age == cli.cache_max_age->Some_0,
        cli.cache_max_age is None
            && file.server is Some
            && file.server->Some_0.cache_max_age is Some ==> s.server.cache_max_age
            == file.server->Some_0.cache_max_age->Some_0,
        cli.cache_max_age is None
            && (file.server is None || file.server->Some_0.cache_max_age is None)
            ==> s.server.cache_max_age
            == 3600,
        cli.cors is Some ==> s.server.cors == cli.cors->Some_0,
        cli.cors is None
            && file.server is Some
            && file.server->Some_0.cors is Some ==> s.server.cors
            == file.server->Some_0.cors->Some_0,
        cli.cors is None
            && (file.server is None || file.server->Some_0.cors is None) ==> s.server.cors
            == false,
        cli.gzip is Some ==> s.server.gzip == cli.gzip->Some_0,
        cli.gzip is None
            && file.server is Some
            && file.server->Some_0.gzip is Some ==> s.server.gzip
            == file.server->Some_0.gzip->Some_0,
        cli.gzip is None
            && (file.server is None || file.server->Some_0.gzip is None) ==> s.server.gzip
            == false,
        cli.no_dotfiles is Some ==> s.server.no_dotfiles == cli.no_dotfiles->Some_0,
        cli.no_dotfiles is None
            && file.server is Some
            && file.server->Some_0.no_dotfiles is Some ==> s.server.no_dotfiles
            == file.server->Some_0.no_dotfiles->Some_0,
        cli.no_dotfiles is None
            && (file.server is None || file.server->Some_0.no_dotfiles is None)
            ==> s.server.no_dotfiles
            == false,
{
}

/// The memory cache has 512 megabytes unless an argument or the file says otherwise, and the
/// disk cache the directory of the file.
pub proof fn law_settings_of_the_caches(cli: &Cli, file: &AppConfig, s: Settings)
    requires
        call_ensures(resolve_settings, (cli, file), s),
    ensures
        cli.l2_cache_mb is Some ==> s.server.l2_cache_mb == cli.l2_cache_mb->Some_0,
        cli.l2_cache_mb is None
            && file.cache is Some
            && file.cache->Some_0.l2_size_mb is Some ==> s.server.l2_cache_mb
            == file.cache->Some_0.l2_size_mb->Some_0,
        cli.l2_cache_mb is None
            && (file.cache is None || file.cache->Some_0.l2_size_mb is None)
            ==> s.server.l2_cache_mb
            == 512,
        s.server.disk_cache_dir is Some <==> file.cache is Some
            && file.cache->Some_0.disk_dir is Some,
        s.server.disk_cache_dir is Some ==> s.server.disk_cache_dir->Some_0@
            == file.cache->Some_0.disk_dir->Some_0@,
{
}

/// The directory that is named without an option is served, else that of the option, else that
/// of the file, else the current one.
pub proof fn law_directory_that_is_served(cli: &Cli, file: &AppConfig, s: Settings)
    requires
        call_ensures(resolve_settings, (cli, file), s),
    ensures
        cli.dir is Some ==> s.root@ == cli.dir->Some_0@,
        cli.dir is None && cli.root is Some ==> s.root@ == cli.root->Some_0@,
        cli.dir is None && cli.root is None && file.server is Some
            && file.server->Some_0.root is Some ==> s.root@ == file.server->Some_0.root->Some_0@,
        cli.dir is None && cli.root is None && (file.server is None
            || file.server->Some_0.root is None) ==> s.root@ == "."@,
{
}

/// Two lists hold the same texts in the same order.
pub open spec fn same_texts(a: Seq<String>, b: Seq<String>) -> bool {
    a.len() == b.len() && forall|i: int| 0 <= i < a.len() ==> (#[trigger] a[i])@ == b[i]@
}

proof fn lemma_same_texts(a: Seq<String>, b: Seq<String>)
    requires
        crate::text::texts(a) == crate::text::texts(b),
    ensures
        same_texts(a, b),
{
    assert(crate::text::texts(a).len() == a.len());
    assert(crate::text::texts(b).len() == b.len());
    assert forall|i: int| 0 <= i < a.len() implies (#[trigger] a[i])@ == b[i]@ by {
        assert(crate::text::texts(a)[i] == a[i]@);
        assert(crate::text::texts(b)[i] == b[i]@);
    }
}

/// The paths that are allowed are all those of the arguments, else all those of the file, else
/// none; the root is served before them.
pub proof fn law_paths_that_are_allowed(
    cli: &Cli,
    file: &AppConfig,
    s: Settings,
    root: &str,
    allowed: &Vec<String>,
    dirs: Vec<String>,
)
    requires
        call_ensures(resolve_settings, (cli, file), s),
        call_ensures(served_dirs, (root, allowed), dirs),
    ensures
        cli.allow_path is Some ==> same_texts(s.server.allowed_paths@, cli.allow_path->Some_0@),
        cli.allow_path is None && file.server is Some
            && file.server->Some_0.allowed_paths is Some ==> same_texts(
            s.server.allowed_paths@,
            file.server->Some_0.allowed_paths->Some_0@,
        ),
        cli.allow_path is None && (file.server is None
            || file.server->Some_0.allowed_paths is None) ==> s.server.allowed_paths@.len() == 0,
        dirs@.len() == allowed@.len() + 1,
        dirs@[0]@ == root@,
        forall|i: int| 0 <= i < allowed@.len() ==> dirs@[i + 1]@ == (#[trigger] allowed@[i])@,
{
    let paths = s.server.allowed_paths@;
    if cli.allow_path is Some {
        lemma_same_texts(paths, cli.allow_path->Some_0@);
    } else if file.server is Some && file.server->Some_0.allowed_paths is Some {
        lemma_same_texts(paths, file.server->Some_0.allowed_paths->Some_0@);
    } else {
        assert(crate::text::texts(paths).len() == paths.len());
    }
    let all = crate::text::texts(dirs@);
    assert(all.len() == dirs@.len());
    assert(crate::text::texts(allowed@).len() == allowed@.len());
    assert(all[0] == dirs@[0]@);
    assert forall|i: int| 0 <= i < allowed@.len() implies dirs@[i + 1]@ == (
    #[trigger] allowed@[i])@ by {
        assert(all[i + 1] == dirs@[i + 1]@);
        assert(crate::text::texts(allowed@)[i] == allowed@[i]@);
    }
}

/// The addresses under which a server can be opened: those of its own machine where it listens
/// on every address, its own otherwise, in brackets where it is of the newer kind. The port
/// follows each.
pub proof fn law_addresses_of_the_server(kind: &HostKind, port: u16, urls: Vec<String>)
    requires
        call_ensures(access_urls, (kind, port), urls),
    ensures
        ({
            let end = ":"@ + crate::numbers::decimal(port as nat);
            match *kind {
                HostKind::AnyV4 => urls@.len() == 2 && urls@[0]@ == "http://"@ + ("127.0.0.1"@
                    + end) && urls@[1]@ == "http://"@ + ("localhost"@ + end),
                HostKind::AnyV6 => urls@.len() == 3 && urls@[0]@ == "http://"@ + ("127.0.0.1"@
                    + end) && urls@[1]@ == "http://"@ + ("localhost"@ + end) && urls@[2]@
                    == "http://"@ + ("[::1]"@ + end),
                HostKind::LocalV4 => urls@.len() == 1 && urls@[0]@ == "http://"@ + ("127.0.0.1"@
                    + end),
                HostKind::LocalV6 => urls@.len() == 1 && urls@[0]@ == "http://"@ + ("[::1]"@ + end),
                HostKind::V4(ip) => urls@.len() == 1 && urls@[0]@ == "http://"@ + (ip@ + end),
                HostKind::V6(ip) => urls@.len() == 1 && urls@[0]@ == "http://"@ + (("["@ + ip@
                    + "]"@) + end),
            }
        }),
{
    let end = ":"@ + crate::numbers::decimal(port as nat);
    assert forall|host: Seq<char>| #[trigger] url_of(host, port) == "http://"@ + (host + end) by {
        assert(url_of(host, port) =~= "http://"@ + (host + end));
    }
}

} // verus!
