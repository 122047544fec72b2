//! CSL aircraft model packages: the server index, the package list built
//! from it, the comparison with installed files, and the registry of
//! running downloads.

use vstd::prelude::*;
use vstd::hash_map::StringHashMap;
use crate::num::{dec, dec_vec, parse_u64, parse_u8, parse_unsigned};
use crate::text::{
    chars_less, eq_chars, lemma_seq_less_total, lemma_seq_less_trans, lemma_split_pieces_nonempty,
    seq_less, chars_of, copy_chars, eq_str, lines, lines_of, push_all, replace_all, replace_vec, seqs,
    slice_vec, split_char, split_pieces, starts_with, starts_with_exec, string_of, trim,
    trim_end_char, trim_end_char_vec, trim_vec,
};

verus! {

/// A package as listed to the user.
#[derive(Debug, Clone)]
pub struct CslPackageInfo {
    pub name: String,
    pub total_size_bytes: u64,
    pub file_count: usize,
    pub description: String,
    pub status: String,
    pub files_to_update: usize,
    pub update_size_bytes: u64,
    pub last_updated: String,
}

/// A folder that a plugin reads CSL models from.
#[derive(Debug, Clone)]
pub struct CslPath {
    pub path: String,
    pub source: String,
    pub plugin_name: Option<String>,
}

/// The result of a scan: packages, model folders and the server version.
#[derive(Debug, Clone)]
pub struct CslScanResult {
    pub packages: Vec<CslPackageInfo>,
    pub paths: Vec<CslPath>,
    pub server_version: String,
}

/// Progress of a package download.
#[derive(Debug, Clone)]
pub struct CslProgressEvent {
    pub package_name: String,
    pub current_file: usize,
    pub total_files: usize,
    pub current_file_name: String,
    pub bytes_downloaded: u64,
    pub total_bytes: u64,
}

/// Progress of linking packages into the plugin folders.
#[derive(Debug, Clone)]
pub struct CslLinkSyncProgressEvent {
    pub request_id: String,
    pub phase: String,
    pub current_target_path: String,
    pub current_package_name: String,
    pub current_file_name: String,
    pub processed_files: usize,
    pub total_files: usize,
    pub completed_targets: usize,
    pub total_targets: usize,
    pub message: Option<String>,
}

/// The registry of running downloads: each task key with whether its
/// cancellation was asked for.
pub struct CslDownloadControl {
    tasks: StringHashMap<bool>,
}

/// The registration of a running download, by its task key.
pub struct CslDownloadRegistration {
    pub key: String,
}

impl View for CslDownloadControl {
    type V = Map<Seq<char>, bool>;

    closed spec fn view(&self) -> Map<Seq<char>, bool> {
        self.tasks@
    }
}

/// The registry after registering `key`: a new, not cancelled task when the
/// key was free, unchanged otherwise.
pub open spec fn registered(m: Map<Seq<char>, bool>, key: Seq<char>) -> Map<Seq<char>, bool> {
    if m.contains_key(key) {
        m
    } else {
        m.insert(key, false)
    }
}

/// The registry after cancelling `key`: marked when running.
pub open spec fn cancelled(m: Map<Seq<char>, bool>, key: Seq<char>) -> Map<Seq<char>, bool> {
    if m.contains_key(key) {
        m.insert(key, true)
    } else {
        m
    }
}

impl CslDownloadControl {
    pub fn new() -> (r: Self)
        ensures
            r@ == Map::<Seq<char>, bool>::empty(),
    {
        CslDownloadControl { tasks: StringHashMap::new() }
    }

    /// Registers a download; an error when one with the key is running.
    pub fn register(&mut self, key: String) -> (r: Result<CslDownloadRegistration, String>)
        ensures
            final(self)@ == registered(old(self)@, key@),
            match r {
                Ok(reg) => !old(self)@.contains_key(key@) && reg.key@ == key@,
                Err(e) => old(self)@.contains_key(key@) && e@ == "Download already running for "@
                    + key@,
            },
    {
        if self.tasks.contains_key(key.as_str()) {
            let mut msg = chars_of("Download already running for ");
            push_all(&mut msg, &chars_of(key.as_str()));
            return Err(string_of(&msg));
        }
        let k2 = key.clone();
        self.tasks.insert(key, false);
        Ok(CslDownloadRegistration { key: k2 })
    }

    /// Asks a running download to stop.
    pub fn cancel(&mut self, key: &str)
        ensures
            final(self)@ == cancelled(old(self)@, key@),
    {
        if self.tasks.contains_key(key) {
            let k = string_of(&chars_of(key));
            self.tasks.insert(k, true);
        }
    }

    /// Removes a finished download (what dropping its registration does).
    pub fn release(&mut self, registration: CslDownloadRegistration)
        ensures
            final(self)@ == old(self)@.remove(registration.key@),
    {
        self.tasks.remove(registration.key.as_str());
    }

    /// Whether the download with the key was asked to stop.
    pub fn is_cancelled(&self, key: &str) -> (r: bool)
        ensures
            r == (self@.contains_key(key@) && self@[key@]),
    {
        match self.tasks.get(key) {
            Some(flag) => *flag,
            None => false,
        }
    }
}

/// A download can be registered only while no other with its key runs;
/// releasing it frees the key, and the registry is as it was before.
pub proof fn law_register_release(m: Map<Seq<char>, bool>, key: Seq<char>)
    ensures
        !m.contains_key(key) ==> registered(m, key).contains_key(key) && !registered(m, key)[key]
            && registered(m, key).remove(key) == m,
        registered(registered(m, key), key) == registered(m, key),
{
    if !m.contains_key(key) {
        assert(registered(m, key).remove(key) =~= m);
    }
}

/// Cancelling marks only the task with that key, and only when it runs.
pub proof fn law_cancel_marks_only_its_task(m: Map<Seq<char>, bool>, key: Seq<char>, other: Seq<char>)
    ensures
        m.contains_key(key) ==> cancelled(m, key)[key],
        other != key ==> (cancelled(m, key).contains_key(other) == m.contains_key(other)) && (
        m.contains_key(other) ==> cancelled(m, key)[other] == m[other]),
        cancelled(m, key).dom() == m.dom(),
{
    assert(cancelled(m, key).dom() =~= m.dom());
}

/// The key of an install task: source and package name.
pub fn install_task_key(source: &str, package_name: &str) -> (r: String)
    ensures
        r@ == source@ + seq![':'] + package_name@,
{
    let mut v = chars_of(source);
    v.push(':');
    push_all(&mut v, &chars_of(package_name));
    string_of(&v)
}

/// The number of parallel downloads: 1 when not given, clamped to 1..=12.
pub fn clamp_parallel_downloads(parallel_downloads: Option<usize>) -> (r: usize)
    ensures
        r == (match parallel_downloads {
            None => 1,
            Some(n) => if n < 1 {
                1
            } else if n > 12 {
                12
            } else {
                n
            },
        }),
{
    let n = match parallel_downloads {
        Some(n) => n,
        None => 1,
    };
    if n < 1 {
        1
    } else if n > 12 {
        12
    } else {
        n
    }
}

/// The server base URL: the given one trimmed, the default when absent or
/// empty, without trailing `/`.
pub open spec fn server_base_url(given: Option<Seq<char>>) -> Seq<char> {
    let chosen = match given {
        Some(g) => if trim(g).len() > 0 {
            trim(g)
        } else {
            "http://x-csl.ru"@
        },
        None => "http://x-csl.ru"@,
    };
    trim_end_char(chosen, '/')
}

pub fn resolve_server_base_url(server_base_url: Option<&str>) -> (r: String)
    ensures
        r@ == crate::csl::server_base_url(
            match server_base_url {
                Some(s) => Some(s@),
                None => None,
            },
        ),
{
    let chosen = match server_base_url {
        Some(s) => {
            let t = trim_vec(&chars_of(s));
            if t.len() > 0 {
                t
            } else {
                chars_of("http://x-csl.ru")
            }
        },
        None => chars_of("http://x-csl.ru"),
    };
    string_of(&trim_end_char_vec(&chosen, '/'))
}

/// The base of the CSL package API.
pub fn resolve_csl_api_base(server_base_url: Option<&str>) -> (r: String)
    ensures
        r@ == crate::csl::server_base_url(
            match server_base_url {
                Some(s) => Some(s@),
                None => None,
            },
        ) + "/package"@,
{
    let mut v = chars_of(resolve_server_base_url(server_base_url).as_str());
    push_all(&mut v, &chars_of("/package"));
    string_of(&v)
}

/// The base of the ALTITUDE package API.
pub fn resolve_altitude_api_base(server_base_url: Option<&str>) -> (r: String)
    ensures
        r@ == crate::csl::server_base_url(
            match server_base_url {
                Some(s) => Some(s@),
                None => None,
            },
        ) + "/package/ALTITUDE"@,
{
    let mut v = chars_of(resolve_server_base_url(server_base_url).as_str());
    push_all(&mut v, &chars_of("/package/ALTITUDE"));
    string_of(&v)
}

/// The key under which a package description is cached.
pub fn description_cache_key(server: &str, package_name: &str) -> (r: String)
    ensures
        r@ == server@ + "::"@ + package_name@,
{
    let mut v = chars_of(server);
    push_all(&mut v, &chars_of("::"));
    push_all(&mut v, &chars_of(package_name));
    string_of(&v)
}

pub open spec fn cache_key(server: Seq<char>, name: Seq<char>) -> Seq<char> {
    server + "::"@ + name
}

/// The names whose description the cache holds, with it, and the names
/// still to fetch, both in the order asked.
pub open spec fn split_cached(
    cache: Map<Seq<char>, String>,
    server: Seq<char>,
    names: Seq<Seq<char>>,
) -> (Seq<(Seq<char>, Seq<char>)>, Seq<Seq<char>>)
    decreases names.len(),
{
    if names.len() == 0 {
        (Seq::empty(), Seq::empty())
    } else {
        let prev = split_cached(cache, server, names.drop_last());
        let n = names.last();
        if cache.contains_key(cache_key(server, n)) {
            (prev.0.push((n, cache[cache_key(server, n)]@)), prev.1)
        } else {
            (prev.0, prev.1.push(n))
        }
    }
}

pub open spec fn pair_views(v: Seq<(String, String)>) -> Seq<(Seq<char>, Seq<char>)> {
    v.map_values(|p: (String, String)| (p.0@, p.1@))
}

/// Splits the asked names by the description cache of `server`.
pub fn split_by_description_cache(cache: &StringHashMap<String>, server: &str, names: &Vec<String>) -> (r: (
    Vec<(String, String)>,
    Vec<String>,
))
    ensures
        ({
            let s = split_cached(cache@, server@, string_seqs(names@));
            &&& pair_views(r.0@) == s.0
            &&& string_seqs(r.1@) == s.1
        }),
{
    let ghost ns = string_seqs(names@);
    let mut known: Vec<(String, String)> = Vec::new();
    let mut unknown: Vec<String> = Vec::new();
    let mut i: usize = 0;
    while i < names.len()
        invariant
            0 <= i <= names@.len(),
            ns == string_seqs(names@),
            pair_views(known@) == split_cached(cache@, server@, ns.subrange(0, i as int)).0,
            string_seqs(unknown@) == split_cached(cache@, server@, ns.subrange(0, i as int)).1,
        decreases names@.len() - i,
    {
        let ghost sub = ns.subrange(0, i + 1);
        assert(sub.drop_last() =~= ns.subrange(0, i as int));
        assert(sub.last() == names@[i as int]@);
        let key = description_cache_key(server, names[i].as_str());
        let ghost k0 = known@;
        let ghost u0 = unknown@;
        match cache.get(key.as_str()) {
            Some(d) => {
                known.push((names[i].clone(), d.clone()));
                assert(pair_views(known@) =~= pair_views(k0).push((names@[i as int]@, d@)));
            },
            None => {
                unknown.push(names[i].clone());
                assert(string_seqs(unknown@) =~= string_seqs(u0).push(names@[i as int]@));
            },
        }
        i = i + 1;
    }
    assert(ns.subrange(0, names@.len() as int) =~= ns);
    (known, unknown)
}

/// The cache after fetched descriptions were recorded, in order (a later
/// entry for the same name wins).
pub open spec fn cache_with(
    cache: Map<Seq<char>, Seq<char>>,
    server: Seq<char>,
    entries: Seq<(Seq<char>, Seq<char>)>,
) -> Map<Seq<char>, Seq<char>>
    decreases entries.len(),
{
    if entries.len() == 0 {
        cache
    } else {
        cache_with(cache, server, entries.drop_last()).insert(
            cache_key(server, entries.last().0),
            entries.last().1,
        )
    }
}

pub open spec fn text_map(m: Map<Seq<char>, String>) -> Map<Seq<char>, Seq<char>> {
    m.map_values(|v: String| v@)
}

/// Records fetched descriptions in the cache of `server` and in the result
/// (the cached ones first, then the fetched ones, in order).
pub fn record_fetched_descriptions(
    cache: &mut StringHashMap<String>,
    result: &mut Vec<(String, String)>,
    server: &str,
    fetched: &Vec<(String, String)>,
)
    ensures
        text_map(final(cache)@) == cache_with(text_map(old(cache)@), server@, pair_views(fetched@)),
        pair_views(final(result)@) == pair_views(old(result)@) + pair_views(fetched@),
{
    let ghost c0 = text_map(cache@);
    let ghost r0 = pair_views(result@);
    let ghost fs = pair_views(fetched@);
    let mut i: usize = 0;
    while i < fetched.len()
        invariant
            0 <= i <= fetched@.len(),
            fs == pair_views(fetched@),
            text_map(cache@) == cache_with(c0, server@, fs.subrange(0, i as int)),
            pair_views(result@) == r0 + fs.subrange(0, i as int),
        decreases fetched@.len() - i,
    {
        let ghost sub = fs.subrange(0, i + 1);
        assert(sub.drop_last() =~= fs.subrange(0, i as int));
        assert(sub.last() == (fetched@[i as int].0@, fetched@[i as int].1@));
        let ghost before = cache@;
        let ghost rb = result@;
        let key = description_cache_key(server, fetched[i].0.as_str());
        cache.insert(key, fetched[i].1.clone());
        assert(text_map(cache@) =~= text_map(before).insert(
            cache_key(server@, fetched@[i as int].0@),
            fetched@[i as int].1@,
        ));
        result.push((fetched[i].0.clone(), fetched[i].1.clone()));
        assert(pair_views(result@) =~= pair_views(rb).push(sub.last()));
        assert(r0 + fs.subrange(0, i + 1) =~= (r0 + fs.subrange(0, i as int)).push(sub.last()));
        i = i + 1;
    }
    assert(fs.subrange(0, fetched@.len() as int) =~= fs);
}

/// A character kept in request ids.
pub open spec fn request_id_char(c: char) -> bool {
    ('a' <= c && c <= 'z') || ('A' <= c && c <= 'Z') || ('0' <= c && c <= '9') || c == '-' || c
        == '_' || c == '.' || c == ':'
}

/// The kept characters of a text, in order.
pub open spec fn request_id_chars(s: Seq<char>) -> Seq<char>
    decreases s.len(),
{
    if s.len() == 0 {
        s
    } else if request_id_char(s.last()) {
        request_id_chars(s.drop_last()).push(s.last())
    } else {
        request_id_chars(s.drop_last())
    }
}

/// A request id from the caller: the first 96 kept characters of the
/// trimmed text; none when nothing is kept.
pub open spec fn sanitized_request_id(raw: Seq<char>) -> Option<Seq<char>> {
    let kept = request_id_chars(trim(raw));
    let s = if kept.len() > 96 {
        kept.subrange(0, 96)
    } else {
        kept
    };
    if s.len() == 0 {
        None
    } else {
        Some(s)
    }
}

pub fn sanitize_request_id(raw: &str) -> (r: Option<String>)
    ensures
        match sanitized_request_id(raw@) {
            Some(s) => r matches Some(x) && x@ == s,
            None => r is None,
        },
{
    let t = trim_vec(&chars_of(raw));
    let mut kept: Vec<char> = Vec::new();
    let mut i: usize = 0;
    while i < t.len()
        invariant
            0 <= i <= t.len(),
            kept@ == request_id_chars(t@.subrange(0, i as int)),
        decreases t.len() - i,
    {
        assert(t@.subrange(0, i + 1).drop_last() =~= t@.subrange(0, i as int));
        let c = t[i];
        if ('a' <= c && c <= 'z') || ('A' <= c && c <= 'Z') || ('0' <= c && c <= '9') || c == '-'
            || c == '_' || c == '.' || c == ':' {
            kept.push(c);
        }
        i = i + 1;
    }
    assert(t@.subrange(0, t@.len() as int) =~= t@);
    let s = if kept.len() > 96 {
        slice_vec(&kept, 0, 96)
    } else {
        kept
    };
    if s.len() == 0 {
        None
    } else {
        Some(string_of(&s))
    }
}

/// A text of 32 lower-case hexadecimal digits.
pub open spec fn simple_uuid_text(s: Seq<char>) -> bool {
    s.len() == 32 && forall|i: int|
        0 <= i < s.len() ==> ('0' <= #[trigger] s[i] && s[i] <= '9') || ('a' <= s[i] && s[i]
            <= 'f')
}

/// A fresh random UUID (`Uuid::new_v4()`) in its simple form: 32
/// lower-case hexadecimal digits. Which ones is left open: they are random.
#[verifier::external_body]
fn new_simple_uuid() -> (r: String)
    ensures
        simple_uuid_text(r@),
{
    uuid::Uuid::new_v4().simple().to_string()
}

/// The id of an operation: the caller's id when it survives sanitising,
/// else the operation name (`_` turned into `-`), a `-` and a fresh UUID.
pub fn normalize_request_id(request_id: Option<&str>, operation: &str) -> (r: String)
    ensures
        match request_id {
            Some(id) if sanitized_request_id(id@) is Some => r@ == sanitized_request_id(id@)->0,
            _ => exists|u: Seq<char>|
                simple_uuid_text(u) && r@ == replace_all(operation@, seq!['_'], seq!['-']) + seq![
                    '-',
                ] + u,
        },
{
    match request_id {
        Some(id) => match sanitize_request_id(id) {
            Some(s) => return s,
            None => {},
        },
        None => {},
    }
    let mut us: Vec<char> = Vec::new();
    us.push('_');
    let mut dash: Vec<char> = Vec::new();
    dash.push('-');
    assert(us@ =~= seq!['_']);
    assert(dash@ =~= seq!['-']);
    let mut v = replace_vec(&chars_of(operation), &us, &dash);
    v.push('-');
    let u = new_simple_uuid();
    push_all(&mut v, &chars_of(u.as_str()));
    assert(v@ == replace_all(operation@, seq!['_'], seq!['-']) + seq!['-'] + u@);
    string_of(&v)
}

/// The name of the link state file of a package: ASCII letters, digits,
/// `-`, `_` and `.` kept, anything else turned into `_`.
pub open spec fn manifest_file_name(package_name: Seq<char>) -> Seq<char> {
    package_name.map_values(
        |c: char|
            if ('a' <= c && c <= 'z') || ('A' <= c && c <= 'Z') || ('0' <= c && c <= '9') || c
                == '-' || c == '_' || c == '.' {
                c
            } else {
                '_'
            },
    )
}

pub fn sanitize_manifest_file_name(package_name: &str) -> (r: String)
    ensures
        r@ == manifest_file_name(package_name@),
{
    let s = chars_of(package_name);
    let mut out: Vec<char> = Vec::new();
    let mut i: usize = 0;
    while i < s.len()
        invariant
            0 <= i <= s.len(),
            out@ == manifest_file_name(s@.subrange(0, i as int)),
        decreases s.len() - i,
    {
        let c = s[i];
        let m = if ('a' <= c && c <= 'z') || ('A' <= c && c <= 'Z') || ('0' <= c && c <= '9') || c
            == '-' || c == '_' || c == '.' {
            c
        } else {
            '_'
        };
        out.push(m);
        i = i + 1;
        assert(out@ =~= manifest_file_name(s@.subrange(0, i as int)));
    }
    assert(s@.subrange(0, s@.len() as int) =~= s@);
    string_of(&out)
}

/// A line of the server index: type (10 file, 11 package header, 15
/// directory), path, size, MD5 of a file, date and time.
#[derive(Debug, Clone)]
pub struct CslIndexEntry {
    pub entry_type: u8,
    pub path: String,
    pub size_bytes: u64,
    pub md5_hash: Option<String>,
    pub date: String,
    pub time: String,
}

pub struct IndexEntryView {
    pub entry_type: u8,
    pub path: Seq<char>,
    pub size_bytes: u64,
    pub md5_hash: Option<Seq<char>>,
    pub date: Seq<char>,
    pub time: Seq<char>,
}

impl View for CslIndexEntry {
    type V = IndexEntryView;

    open spec fn view(&self) -> IndexEntryView {
        IndexEntryView {
            entry_type: self.entry_type,
            path: self.path@,
            size_bytes: self.size_bytes,
            md5_hash: match self.md5_hash {
                Some(h) => Some(h@),
                None => None,
            },
            date: self.date@,
            time: self.time@,
        }
    }
}

/// The entry a line of the index holds: the trimmed line, not a `0 `
/// header, split at `%` into at least six fields, with a type of 10, 11 or
/// 15; a size that does not read as a number counts as 0; a file keeps its
/// MD5 unless it is empty or `Reserve`.
pub open spec fn index_entry_of(line: Seq<char>) -> Option<IndexEntryView> {
    let t = trim(line);
    if t.len() == 0 || starts_with(t, "0 "@) {
        None
    } else {
        let p = split_pieces(t, '%');
        if p.len() < 6 {
            None
        } else {
            match parse_unsigned(p[0], 255) {
                Some(ty) => if ty == 10 || ty == 11 || ty == 15 {
                    Some(
                        IndexEntryView {
                            entry_type: ty as u8,
                            path: p[1],
                            size_bytes: match parse_unsigned(p[2], u64::MAX as nat) {
                                Some(v) => v as u64,
                                None => 0,
                            },
                            md5_hash: if ty == 10 && p[3] != "Reserve"@ && p[3].len() > 0 {
                                Some(p[3])
                            } else {
                                None
                            },
                            date: p[4],
                            time: p[5],
                        },
                    )
                } else {
                    None
                },
                None => None,
            }
        }
    }
}

/// The entries of the index lines, in order.
pub open spec fn index_entries(ls: Seq<Seq<char>>) -> Seq<IndexEntryView>
    decreases ls.len(),
{
    if ls.len() == 0 {
        Seq::empty()
    } else {
        let prev = index_entries(ls.drop_last());
        match index_entry_of(ls.last()) {
            Some(e) => prev.push(e),
            None => prev,
        }
    }
}

pub open spec fn entry_views(v: Seq<CslIndexEntry>) -> Seq<IndexEntryView> {
    v.map_values(|e: CslIndexEntry| e@)
}

fn parse_index_line(line: &[char]) -> (r: Option<CslIndexEntry>)
    ensures
        match index_entry_of(line@) {
            Some(e) => r matches Some(x) && x@ == e,
            None => r is None,
        },
{
    let t = trim_vec(line);
    if t.len() == 0 || starts_with_exec(&t, &chars_of("0 ")) {
        return None;
    }
    let p = split_char(&t, '%');
    if p.len() < 6 {
        return None;
    }
    assert(forall|i: int| 0 <= i < 6 ==> seqs(p@)[i] == #[trigger] p@[i]@);
    let ty = match parse_u8(&p[0]) {
        Some(ty) => ty,
        None => return None,
    };
    if !(ty == 10 || ty == 11 || ty == 15) {
        return None;
    }
    let size = match parse_u64(&p[2]) {
        Some(v) => v,
        None => 0,
    };
    let md5 = if ty == 10 && !eq_str(&p[3], "Reserve") && p[3].len() > 0 {
        Some(string_of(&p[3]))
    } else {
        None
    };
    Some(
        CslIndexEntry {
            entry_type: ty,
            path: string_of(&p[1]),
            size_bytes: size,
            md5_hash: md5,
            date: string_of(&p[4]),
            time: string_of(&p[5]),
        },
    )
}

/// Reads the entries of the server index.
pub fn parse_index(content: &str) -> (r: Vec<CslIndexEntry>)
    ensures
        entry_views(r@) == index_entries(lines(content@)),
{
    let text = chars_of(content);
    let ls = lines_of(&text);
    let ghost all = seqs(ls@);
    let mut entries: Vec<CslIndexEntry> = Vec::new();
    let mut i: usize = 0;
    while i < ls.len()
        invariant
            0 <= i <= ls.len(),
            all == seqs(ls@),
            entry_views(entries@) == index_entries(all.subrange(0, i as int)),
        decreases ls.len() - i,
    {
        assert(all.subrange(0, i + 1).drop_last() =~= all.subrange(0, i as int));
        assert(all.subrange(0, i + 1).last() == ls@[i as int]@);
        match parse_index_line(&ls[i]) {
            Some(e) => {
                let ghost before = entry_views(entries@);
                entries.push(e);
                assert(entry_views(entries@) =~= before.push(e@));
            },
            None => {},
        }
        i = i + 1;
    }
    assert(all.subrange(0, ls@.len() as int) =~= all);
    entries
}

/// A file of a package.
#[derive(Debug, Clone)]
pub struct FileEntry {
    pub path: String,
    pub size_bytes: u64,
    pub md5_hash: Option<String>,
}

/// A package of the index: the header's size, date and time, and its files.
#[derive(Debug, Clone)]
pub struct PackageData {
    pub name: String,
    pub header_size: u64,
    pub header_date: String,
    pub header_time: String,
    pub files: Vec<FileEntry>,
}

pub open spec fn opt_str_view(o: Option<String>) -> Option<Seq<char>> {
    match o {
        Some(s) => Some(s@),
        None => None,
    }
}

impl View for FileEntry {
    type V = (Seq<char>, u64, Option<Seq<char>>);

    open spec fn view(&self) -> (Seq<char>, u64, Option<Seq<char>>) {
        (self.path@, self.size_bytes, opt_str_view(self.md5_hash))
    }
}

pub open spec fn file_views(v: Seq<FileEntry>) -> Seq<(Seq<char>, u64, Option<Seq<char>>)> {
    v.map_values(|f: FileEntry| f@)
}

/// The first `/` separated segment of a path.
pub open spec fn first_segment(path: Seq<char>) -> Seq<char> {
    split_pieces(path, '/')[0]
}

/// The package an entry belongs to: a header names it, a file by the first
/// segment of its path; directories belong to none.
pub open spec fn entry_package(e: IndexEntryView) -> Option<Seq<char>> {
    if e.entry_type == 11 {
        Some(e.path)
    } else if e.entry_type == 10 {
        Some(first_segment(e.path))
    } else {
        None
    }
}

/// Size, date and time from the last header entry of the package, or
/// 0 and empty texts.
pub open spec fn header_of(es: Seq<IndexEntryView>, name: Seq<char>) -> (u64, Seq<char>, Seq<char>)
    decreases es.len(),
{
    if es.len() == 0 {
        (0, Seq::empty(), Seq::empty())
    } else if es.last().entry_type == 11 && es.last().path == name {
        (es.last().size_bytes, es.last().date, es.last().time)
    } else {
        header_of(es.drop_last(), name)
    }
}

/// The file entries of the package, in index order.
pub open spec fn files_of(es: Seq<IndexEntryView>, name: Seq<char>) -> Seq<
    (Seq<char>, u64, Option<Seq<char>>),
>
    decreases es.len(),
{
    if es.len() == 0 {
        Seq::empty()
    } else {
        let p = files_of(es.drop_last(), name);
        let e = es.last();
        if e.entry_type == 10 && first_segment(e.path) == name {
            p.push((e.path, e.size_bytes, e.md5_hash))
        } else {
            p
        }
    }
}

/// Some entry belongs to the package `k`.
pub open spec fn is_package_of(es: Seq<IndexEntryView>, k: Seq<char>) -> bool {
    exists|i: int| 0 <= i < es.len() && entry_package(#[trigger] es[i]) == Some(k)
}

/// Names in strictly increasing order.
pub open spec fn strictly_sorted(names: Seq<Seq<char>>) -> bool {
    forall|i: int, j: int| 0 <= i < j < names.len() ==> seq_less(#[trigger] names[i], #[trigger] names[j])
}

pub open spec fn package_names(v: Seq<PackageData>) -> Seq<Seq<char>> {
    v.map_values(|p: PackageData| p.name@)
}

fn package_key(e: &CslIndexEntry) -> (r: Option<Vec<char>>)
    ensures
        match entry_package(e@) {
            Some(k) => r matches Some(x) && x@ == k,
            None => r is None,
        },
{
    if e.entry_type == 11 {
        Some(chars_of(e.path.as_str()))
    } else if e.entry_type == 10 {
        let parts = split_char(&chars_of(e.path.as_str()), '/');
        proof {
            lemma_split_pieces_nonempty(e.path@, '/');
        }
        assert(seqs(parts@)[0] == parts@[0]@);
        Some(copy_chars(&parts[0]))
    } else {
        None
    }
}

/// Adds a name to a strictly sorted list unless it is there.
fn insert_name(names: &mut Vec<Vec<char>>, key: Vec<char>)
    requires
        strictly_sorted(seqs(old(names)@)),
    ensures
        strictly_sorted(seqs(final(names)@)),
        forall|k: Seq<char>| #[trigger]
            seqs(final(names)@).contains(k) <==> (seqs(old(names)@).contains(k) || k == key@),
{
    let ghost s = seqs(names@);
    let mut j: usize = 0;
    while j < names.len() && chars_less(&names[j], &key)
        invariant
            0 <= j <= names.len(),
            s == seqs(names@),
            forall|a: int| 0 <= a < j ==> seq_less(#[trigger] s[a], key@),
        decreases names.len() - j,
    {
        assert(s[j as int] == names@[j as int]@);
        j = j + 1;
    }
    if j < names.len() && eq_chars(&names[j], &key) {
        assert(s[j as int] == names@[j as int]@);
        assert(s.contains(key@));
        return;
    }
    proof {
        if j < s.len() {
            assert(s[j as int] == names@[j as int]@);
            lemma_seq_less_total(s[j as int], key@);
            assert(seq_less(key@, s[j as int]));
        }
        assert forall|b: int| j <= b < s.len() implies seq_less(key@, #[trigger] s[b]) by {
            if b > j {
                lemma_seq_less_trans(key@, s[j as int], s[b]);
            }
        }
        assert forall|b: int| 0 <= b < s.len() implies #[trigger] s[b] != key@ by {
            lemma_seq_less_total(key@, key@);
        }
    }
    names.insert(j, key);
    let ghost t = seqs(names@);
    assert(t =~= s.subrange(0, j as int).push(key@) + s.subrange(j as int, s.len() as int));
    assert forall|a: int, b: int| 0 <= a < b < t.len() implies seq_less(#[trigger] t[a], #[trigger] t[b]) by {
        if b < j {
            assert(t[a] == s[a] && t[b] == s[b]);
        } else if b == j {
            assert(t[a] == s[a]);
        } else if a < j {
            assert(t[a] == s[a] && t[b] == s[b - 1]);
            lemma_seq_less_trans(s[a], key@, s[b - 1]);
        } else if a == j {
            assert(t[b] == s[b - 1]);
        } else {
            assert(t[a] == s[a - 1] && t[b] == s[b - 1]);
        }
    }
    assert forall|k: Seq<char>| #[trigger] t.contains(k) <==> (s.contains(k) || k == key@) by {
        if t.contains(k) {
            let a = choose|a: int| 0 <= a < t.len() && t[a] == k;
            if a < j {
                assert(s[a] == k);
            } else if a > j {
                assert(s[a - 1] == k);
            }
        }
        if s.contains(k) {
            let a = choose|a: int| 0 <= a < s.len() && s[a] == k;
            if a < j {
                assert(t[a] == k);
            } else {
                assert(t[a + 1] == k);
            }
        }
        if k == key@ {
            assert(t[j as int] == k);
        }
    }
}

/// Groups the index entries into packages, sorted by name: one per name
/// that an entry belongs to, with its header and its files.
pub fn group_into_packages(entries: &[CslIndexEntry]) -> (r: Vec<PackageData>)
    ensures
        strictly_sorted(package_names(r@)),
        forall|k: Seq<char>| #[trigger]
            package_names(r@).contains(k) <==> is_package_of(entry_views(entries@), k),
        forall|i: int|
            0 <= i < r@.len() ==> ({
                let p = #[trigger] r@[i];
                &&& (p.header_size, p.header_date@, p.header_time@) == header_of(
                    entry_views(entries@),
                    p.name@,
                )
                &&& file_views(p.files@) == files_of(entry_views(entries@), p.name@)
            }),
{
    let ghost es = entry_views(entries@);
    let mut names: Vec<Vec<char>> = Vec::new();
    let mut i: usize = 0;
    while i < entries.len()
        invariant
            0 <= i <= entries.len(),
            es == entry_views(entries@),
            strictly_sorted(seqs(names@)),
            forall|k: Seq<char>| #[trigger]
                seqs(names@).contains(k) <==> is_package_of(es.subrange(0, i as int), k),
        decreases entries.len() - i,
    {
        let ghost before = es.subrange(0, i as int);
        let ghost after = es.subrange(0, i + 1);
        assert(after[i as int] == entries@[i as int]@);
        match package_key(&entries[i]) {
            Some(key) => {
                insert_name(&mut names, key);
            },
            None => {},
        }
        assert forall|k: Seq<char>| #[trigger]
            seqs(names@).contains(k) <==> is_package_of(after, k) by {
            if is_package_of(after, k) {
                let a = choose|a: int| 0 <= a < after.len() && entry_package(#[trigger] after[a]) == Some(k);
                if a < i {
                    assert(before[a] == after[a]);
                }
            }
            if is_package_of(before, k) {
                let a = choose|a: int| 0 <= a < before.len() && entry_package(#[trigger] before[a]) == Some(k);
                assert(after[a] == before[a]);
            }
        }
        i = i + 1;
    }
    assert(es.subrange(0, entries@.len() as int) =~= es);
    let ghost ns = seqs(names@);
    let mut out: Vec<PackageData> = Vec::new();
    let mut n: usize = 0;
    while n < names.len()
        invariant
            0 <= n <= names.len(),
            es == entry_views(entries@),
            ns == seqs(names@),
            package_names(out@) == ns.subrange(0, n as int),
            forall|a: int|
                0 <= a < out@.len() ==> ({
                    let p = #[trigger] out@[a];
                    &&& (p.header_size, p.header_date@, p.header_time@) == header_of(es, p.name@)
                    &&& file_views(p.files@) == files_of(es, p.name@)
                }),
        decreases names.len() - n,
    {
        let name = copy_chars(&names[n]);
        assert(ns[n as int] == names@[n as int]@);
        let mut header_size: u64 = 0;
        let mut header_date: Vec<char> = Vec::new();
        let mut header_time: Vec<char> = Vec::new();
        let mut files: Vec<FileEntry> = Vec::new();
        let mut k: usize = 0;
        while k < entries.len()
            invariant
                0 <= k <= entries.len(),
                es == entry_views(entries@),
                (header_size, header_date@, header_time@) == header_of(es.subrange(0, k as int), name@),
                file_views(files@) == files_of(es.subrange(0, k as int), name@),
            decreases entries.len() - k,
        {
            let ghost sub = es.subrange(0, k + 1);
            assert(sub.drop_last() =~= es.subrange(0, k as int));
            assert(sub.last() == entries@[k as int]@);
            let e = &entries[k];
            if e.entry_type == 11 && eq_str(&name, e.path.as_str()) {
                header_size = e.size_bytes;
                header_date = chars_of(e.date.as_str());
                header_time = chars_of(e.time.as_str());
            }
            if e.entry_type == 10 {
                match package_key(e) {
                    Some(seg) => {
                        if eq_chars(&seg, &name) {
                            let ghost fb = file_views(files@);
                            let f = FileEntry {
                                path: e.path.clone(),
                                size_bytes: e.size_bytes,
                                md5_hash: e.md5_hash.clone(),
                            };
                            files.push(f);
                            assert(file_views(files@) =~= fb.push(f@));
                        }
                    },
                    None => {},
                }
            }
            k = k + 1;
        }
        assert(es.subrange(0, entries@.len() as int) =~= es);
        let p = PackageData {
            name: string_of(&name),
            header_size,
            header_date: string_of(&header_date),
            header_time: string_of(&header_time),
            files,
        };
        let ghost ob = out@;
        out.push(p);
        assert(package_names(out@) =~= package_names(ob).push(name@));
        assert(ns.subrange(0, n + 1) =~= ns.subrange(0, n as int).push(name@));
        assert(forall|a: int| 0 <= a < ob.len() ==> out@[a] == ob[a]);
        n = n + 1;
    }
    assert(ns.subrange(0, names@.len() as int) =~= ns);
    out
}

/// The plugin folders (relative to X-Plane) that hold CSL models, with the
/// plugin names.
pub open spec fn csl_plugin_paths() -> Seq<(&'static str, &'static str)> {
    seq![
        ("Resources/plugins/IVAO_CSL/CSL", "IVAO CSL"),
        ("Resources/plugins/xPilot/Resources/CSL", "xPilot"),
        ("Resources/plugins/swift-X-Plane/CSL", "swift"),
        ("Resources/plugins/XSquawkBox/Resources/CSL", "XSquawkBox"),
        ("Resources/plugins/LiveTraffic/CSL", "LiveTraffic"),
    ]
}

pub fn csl_plugin_path_table() -> (r: [(&'static str, &'static str); 5])
    ensures
        r@ == csl_plugin_paths(),
{
    [
        ("Resources/plugins/IVAO_CSL/CSL", "IVAO CSL"),
        ("Resources/plugins/xPilot/Resources/CSL", "xPilot"),
        ("Resources/plugins/swift-X-Plane/CSL", "swift"),
        ("Resources/plugins/XSquawkBox/Resources/CSL", "XSquawkBox"),
        ("Resources/plugins/LiveTraffic/CSL", "LiveTraffic"),
    ]
}

/// The detected model folders: for each plugin folder of the table (in
/// table order) that exists, given by its full path in `found`, an
/// automatic entry with the plugin's name.
pub open spec fn detected_paths(found: Seq<Option<Seq<char>>>) -> Seq<(Seq<char>, Seq<char>, Option<Seq<char>>)>
    decreases found.len(),
{
    if found.len() == 0 {
        Seq::empty()
    } else {
        let prev = detected_paths(found.drop_last());
        let i = found.len() - 1;
        match found.last() {
            Some(p) => if i < 5 {
                prev.push((p, "auto"@, Some(csl_plugin_paths()[i].1@)))
            } else {
                prev
            },
            None => prev,
        }
    }
}

pub open spec fn csl_path_views(v: Seq<CslPath>) -> Seq<(Seq<char>, Seq<char>, Option<Seq<char>>)> {
    v.map_values(|p: CslPath| (p.path@, p.source@, opt_str_view(p.plugin_name)))
}

/// The model folders of an X-Plane install; `found[i]` is the full path of
/// the `i`-th plugin folder of the table when it exists.
pub fn detect_csl_paths(found: &[Option<String>]) -> (r: Vec<CslPath>)
    ensures
        csl_path_views(r@) == detected_paths(found@.map_values(|o: Option<String>| opt_str_view(o))),
{
    let ghost fs = found@.map_values(|o: Option<String>| opt_str_view(o));
    let table = csl_plugin_path_table();
    let mut paths: Vec<CslPath> = Vec::new();
    let mut i: usize = 0;
    while i < found.len()
        invariant
            0 <= i <= found.len(),
            fs == found@.map_values(|o: Option<String>| opt_str_view(o)),
            table@ == csl_plugin_paths(),
            csl_path_views(paths@) == detected_paths(fs.subrange(0, i as int)),
        decreases found.len() - i,
    {
        assert(fs.subrange(0, i + 1).drop_last() =~= fs.subrange(0, i as int));
        assert(fs.subrange(0, i + 1).last() == opt_str_view(found@[i as int]));
        match &found[i] {
            Some(p) => {
                if i < 5 {
                    let ghost before = csl_path_views(paths@);
                    let entry = CslPath {
                        path: p.clone(),
                        source: string_of(&chars_of("auto")),
                        plugin_name: Some(string_of(&chars_of(table[i].1))),
                    };
                    paths.push(entry);
                    assert(csl_path_views(paths@) =~= before.push(
                        (p@, "auto"@, Some(csl_plugin_paths()[i as int].1@)),
                    ));
                }
            },
            None => {},
        }
        i = i + 1;
    }
    assert(fs.subrange(0, found@.len() as int) =~= fs);
    paths
}

pub open spec fn path_names(v: Seq<(Seq<char>, Seq<char>, Option<Seq<char>>)>) -> Seq<Seq<char>> {
    v.map_values(|p: (Seq<char>, Seq<char>, Option<Seq<char>>)| p.0)
}

/// The folders to scan: the detected ones, then each custom folder that is
/// not listed yet, as a `custom` source without a plugin.
pub open spec fn scan_paths(
    detected: Seq<(Seq<char>, Seq<char>, Option<Seq<char>>)>,
    custom: Seq<Seq<char>>,
) -> Seq<(Seq<char>, Seq<char>, Option<Seq<char>>)>
    decreases custom.len(),
{
    if custom.len() == 0 {
        detected
    } else {
        let prev = scan_paths(detected, custom.drop_last());
        if path_names(prev).contains(custom.last()) {
            prev
        } else {
            prev.push((custom.last(), "custom"@, None))
        }
    }
}

fn listed_path(paths: &Vec<CslPath>, item: &String) -> (r: bool)
    ensures
        r == path_names(csl_path_views(paths@)).contains(item@),
{
    let ghost names = path_names(csl_path_views(paths@));
    let x = chars_of(item.as_str());
    let mut i: usize = 0;
    while i < paths.len()
        invariant
            0 <= i <= paths.len(),
            names == path_names(csl_path_views(paths@)),
            x@ == item@,
            forall|q: int| 0 <= q < i ==> (#[trigger] names[q]) != item@,
        decreases paths.len() - i,
    {
        assert(names[i as int] == paths@[i as int].path@);
        if eq_chars(&chars_of(paths[i].path.as_str()), &x) {
            return true;
        }
        i = i + 1;
    }
    false
}

/// The folders to scan, and their paths alone.
pub fn collect_scan_paths(detected: Vec<CslPath>, custom_paths: &[String]) -> (r: (
    Vec<CslPath>,
    Vec<String>,
))
    ensures
        csl_path_views(r.0@) == scan_paths(
            csl_path_views(detected@),
            custom_paths@.map_values(|c: String| c@),
        ),
        string_seqs(r.1@) == path_names(csl_path_views(r.0@)),
{
    let ghost cs = custom_paths@.map_values(|c: String| c@);
    let mut paths = detected;
    let ghost d = csl_path_views(paths@);
    let mut i: usize = 0;
    while i < custom_paths.len()
        invariant
            0 <= i <= custom_paths@.len(),
            cs == custom_paths@.map_values(|c: String| c@),
            csl_path_views(paths@) == scan_paths(d, cs.subrange(0, i as int)),
        decreases custom_paths@.len() - i,
    {
        assert(cs.subrange(0, i + 1).drop_last() =~= cs.subrange(0, i as int));
        assert(cs.subrange(0, i + 1).last() == custom_paths@[i as int]@);
        if !listed_path(&paths, &custom_paths[i]) {
            let ghost before = csl_path_views(paths@);
            paths.push(
                CslPath {
                    path: custom_paths[i].clone(),
                    source: string_of(&chars_of("custom")),
                    plugin_name: None,
                },
            );
            assert(csl_path_views(paths@) =~= before.push((custom_paths@[i as int]@, "custom"@, None)));
        }
        i = i + 1;
    }
    assert(cs.subrange(0, custom_paths@.len() as int) =~= cs);
    let mut names: Vec<String> = Vec::new();
    let mut k: usize = 0;
    while k < paths.len()
        invariant
            0 <= k <= paths@.len(),
            string_seqs(names@) == path_names(csl_path_views(paths@)).subrange(0, k as int),
        decreases paths@.len() - k,
    {
        assert(path_names(csl_path_views(paths@))[k as int] == paths@[k as int].path@);
        let ghost before = names@;
        names.push(paths[k].path.clone());
        assert(string_seqs(names@) =~= string_seqs(before).push(paths@[k as int].path@));
        assert(string_seqs(names@) =~= path_names(csl_path_views(paths@)).subrange(0, k + 1));
        k = k + 1;
    }
    assert(path_names(csl_path_views(paths@)).subrange(0, k as int) =~= path_names(csl_path_views(paths@)));
    (paths, names)
}

/// The first line that is not blank, trimmed.
pub open spec fn first_nonblank_line(ls: Seq<Seq<char>>) -> Option<Seq<char>>
    decreases ls.len(),
{
    if ls.len() == 0 {
        None
    } else if trim(ls[0]).len() > 0 {
        Some(trim(ls[0]))
    } else {
        first_nonblank_line(ls.drop_first())
    }
}

/// The description of a package from the text of its `x-csl-info.info`:
/// its first non-blank line, trimmed; nothing when every line is blank.
pub fn description_from_info_text(text: &str) -> (r: Option<String>)
    ensures
        match first_nonblank_line(lines(text@)) {
            Some(d) => r matches Some(x) && x@ == d,
            None => r is None,
        },
{
    let t = chars_of(text);
    let ls = lines_of(&t);
    let ghost all = seqs(ls@);
    let mut i: usize = 0;
    assert(all.subrange(0, all.len() as int) =~= all);
    while i < ls.len()
        invariant
            0 <= i <= ls@.len(),
            all == seqs(ls@),
            all == lines(text@),
            first_nonblank_line(all) == first_nonblank_line(all.subrange(i as int, all.len() as int)),
        decreases ls@.len() - i,
    {
        let ghost rest = all.subrange(i as int, all.len() as int);
        assert(rest[0] == ls@[i as int]@);
        assert(rest.drop_first() =~= all.subrange(i + 1, all.len() as int));
        let line = trim_vec(&ls[i]);
        if line.len() > 0 {
            return Some(string_of(&line));
        }
        i = i + 1;
    }
    None
}

/// How many times a description is asked for.
pub const DESCRIPTION_FETCH_ATTEMPTS: u32 = 3;

/// The wait after a failed description request (`attempt` counts from
/// 0): 300 ms times the attempt's number, while another attempt is left;
/// `None` after the last one.
pub fn description_retry_delay_ms(attempt: u32) -> (r: Option<u64>)
    ensures
        attempt + 1 < DESCRIPTION_FETCH_ATTEMPTS ==> r == Some((300 * (attempt + 1)) as u64),
        attempt + 1 >= DESCRIPTION_FETCH_ATTEMPTS ==> r is None,
{
    if attempt < DESCRIPTION_FETCH_ATTEMPTS - 1 {
        Some(300 * (attempt as u64 + 1))
    } else {
        None
    }
}

/// How many times a package file download is tried.
pub const CSL_DOWNLOAD_ATTEMPTS: u32 = 5;

/// The wait before a download attempt (`attempt` counts from 0): none
/// before the first, then 1, 2, 4 and 8 seconds (`2^(attempt-1)`); `None`
/// for the first attempt and past the last.
pub fn csl_download_retry_delay_secs(attempt: u32) -> (r: Option<u64>)
    ensures
        1 <= attempt < CSL_DOWNLOAD_ATTEMPTS ==> r == Some(
            vstd::arithmetic::power2::pow2((attempt - 1) as nat) as u64,
        ),
        !(1 <= attempt < CSL_DOWNLOAD_ATTEMPTS) ==> r is None,
{
    proof {
        vstd::arithmetic::power2::lemma2_to64();
    }
    if attempt == 1 {
        Some(1)
    } else if attempt == 2 {
        Some(2)
    } else if attempt == 3 {
        Some(4)
    } else if attempt == 4 {
        Some(8)
    } else {
        None
    }
}

/// The sum of the sizes of files.
pub open spec fn sizes_sum(files: Seq<(Seq<char>, u64, Option<Seq<char>>)>) -> nat
    decreases files.len(),
{
    if files.len() == 0 {
        0
    } else {
        sizes_sum(files.drop_last()) + files.last().1 as nat
    }
}

proof fn lemma_sizes_sum_prefix(files: Seq<(Seq<char>, u64, Option<Seq<char>>)>, k: int)
    requires
        0 <= k <= files.len(),
    ensures
        sizes_sum(files.subrange(0, k)) <= sizes_sum(files),
    decreases files.len() - k,
{
    if k < files.len() {
        lemma_sizes_sum_prefix(files, k + 1);
        assert(files.subrange(0, k + 1).drop_last() =~= files.subrange(0, k));
    } else {
        assert(files.subrange(0, k) =~= files);
    }
}

/// The size of a package: that of its header when not 0, else the sum of
/// its file sizes.
pub open spec fn package_size(p: PackageData) -> nat {
    if p.header_size > 0 {
        p.header_size as nat
    } else {
        sizes_sum(file_views(p.files@))
    }
}

pub fn package_total_size(pkg: &PackageData) -> (r: u64)
    requires
        package_size(*pkg) <= u64::MAX,
    ensures
        r == package_size(*pkg),
{
    if pkg.header_size > 0 {
        return pkg.header_size;
    }
    let ghost fs = file_views(pkg.files@);
    let mut total: u64 = 0;
    let mut i: usize = 0;
    while i < pkg.files.len()
        invariant
            0 <= i <= pkg.files.len(),
            fs == file_views(pkg.files@),
            sizes_sum(fs) <= u64::MAX,
            total == sizes_sum(fs.subrange(0, i as int)),
        decreases pkg.files.len() - i,
    {
        assert(fs.subrange(0, i + 1).drop_last() =~= fs.subrange(0, i as int));
        proof {
            lemma_sizes_sum_prefix(fs, i + 1);
        }
        total = total + pkg.files[i].size_bytes;
        i = i + 1;
    }
    assert(fs.subrange(0, pkg.files@.len() as int) =~= fs);
    total
}

/// When the package was last updated: header date and time, or empty.
pub fn package_last_updated(pkg: &PackageData) -> (r: String)
    ensures
        r@ == (if pkg.header_date@.len() > 0 {
            pkg.header_date@ + seq![' '] + pkg.header_time@
        } else {
            Seq::empty()
        }),
{
    let d = chars_of(pkg.header_date.as_str());
    if d.len() > 0 {
        let mut v = d;
        v.push(' ');
        push_all(&mut v, &chars_of(pkg.header_time.as_str()));
        string_of(&v)
    } else {
        string_of(&Vec::new())
    }
}

/// The listing of a package with a status and what needs updating.
pub fn build_csl_package_info(
    pkg: &PackageData,
    status: &str,
    files_to_update: usize,
    update_size_bytes: u64,
) -> (r: CslPackageInfo)
    requires
        package_size(*pkg) <= u64::MAX,
    ensures
        r.name@ == pkg.name@,
        r.total_size_bytes == package_size(*pkg),
        r.file_count == pkg.files@.len(),
        r.description@.len() == 0,
        r.status@ == status@,
        r.files_to_update == files_to_update,
        r.update_size_bytes == update_size_bytes,
        r.last_updated@ == (if pkg.header_date@.len() > 0 {
            pkg.header_date@ + seq![' '] + pkg.header_time@
        } else {
            Seq::empty()
        }),
{
    CslPackageInfo {
        name: pkg.name.clone(),
        total_size_bytes: package_total_size(pkg),
        file_count: pkg.files.len(),
        description: string_of(&Vec::new()),
        status: string_of(&chars_of(status)),
        files_to_update,
        update_size_bytes,
        last_updated: package_last_updated(pkg),
    }
}

/// The path of a package file inside the package folder: without the
/// `<package>/` prefix when it has one.
pub open spec fn package_relative_path(name: Seq<char>, path: Seq<char>) -> Seq<char> {
    let prefix = name.push('/');
    if starts_with(path, prefix) {
        path.subrange(prefix.len() as int, path.len() as int)
    } else {
        path
    }
}

pub fn package_file_relative_path(package_name: &str, file_path: &str) -> (r: String)
    ensures
        r@ == package_relative_path(package_name@, file_path@),
{
    let mut prefix = chars_of(package_name);
    prefix.push('/');
    let p = chars_of(file_path);
    if starts_with_exec(&p, &prefix) {
        string_of(&slice_vec(&p, prefix.len(), p.len()))
    } else {
        string_of(&p)
    }
}

/// What was found of a package file on disk: whether it exists, its size,
/// and its MD5 (hex) when it was computed, `None` when it could not be.
#[derive(Debug, Clone)]
pub struct LocalFileCheck {
    pub exists: bool,
    pub len: u64,
    pub md5: Option<String>,
}

/// Whether the MD5 of a present file is needed to compare it: only when
/// hashes are checked, the size matches and the server gives a hash.
pub fn file_needs_hash(file: &FileEntry, local_len: u64, verify_hashes: bool) -> (r: bool)
    ensures
        r == (verify_hashes && local_len == file.size_bytes && file.md5_hash is Some),
{
    verify_hashes && local_len == file.size_bytes && file.md5_hash.is_some()
}

/// A file needs an update when it is missing, its size differs, or (when
/// hashes are checked and the server gives one) its MD5 is not the
/// server's or could not be computed.
pub open spec fn file_outdated(
    file: (Seq<char>, u64, Option<Seq<char>>),
    check: LocalFileCheck,
    verify_hashes: bool,
) -> bool {
    ||| !check.exists
    ||| check.len != file.1
    ||| (verify_hashes && file.2 is Some && opt_str_view(check.md5) != file.2)
}

/// The number and total size of the outdated files.
pub open spec fn outdated_totals(
    files: Seq<(Seq<char>, u64, Option<Seq<char>>)>,
    checks: Seq<LocalFileCheck>,
    verify_hashes: bool,
) -> (nat, nat)
    decreases files.len(),
{
    if files.len() == 0 {
        (0, 0)
    } else {
        let prev = outdated_totals(files.drop_last(), checks, verify_hashes);
        if file_outdated(files.last(), checks[files.len() - 1], verify_hashes) {
            (prev.0 + 1, prev.1 + files.last().1 as nat)
        } else {
            prev
        }
    }
}

proof fn lemma_outdated_totals_bound(
    files: Seq<(Seq<char>, u64, Option<Seq<char>>)>,
    checks: Seq<LocalFileCheck>,
    verify_hashes: bool,
)
    ensures
        outdated_totals(files, checks, verify_hashes).0 <= files.len(),
        outdated_totals(files, checks, verify_hashes).1 <= sizes_sum(files),
    decreases files.len(),
{
    if files.len() > 0 {
        lemma_outdated_totals_bound(files.drop_last(), checks, verify_hashes);
    }
}

/// Compares a package with what is on disk (`checks[i]` for its `i`-th
/// file): the status (`needs_update` when some file is outdated, else
/// `up_to_date` after hash checks or `checking` without them), the number
/// of outdated files and their total size.
pub fn compare_package(pkg: &PackageData, checks: &[LocalFileCheck], verify_hashes: bool) -> (r: (
    String,
    usize,
    u64,
))
    requires
        checks@.len() == pkg.files@.len(),
        sizes_sum(file_views(pkg.files@)) <= u64::MAX,
    ensures
        ({
            let t = outdated_totals(file_views(pkg.files@), checks@, verify_hashes);
            &&& r.1 == t.0
            &&& r.2 == t.1
            &&& r.0@ == (if t.0 > 0 {
                "needs_update"@
            } else if verify_hashes {
                "up_to_date"@
            } else {
                "checking"@
            })
        }),
{
    let ghost fs = file_views(pkg.files@);
    let mut count: usize = 0;
    let mut size: u64 = 0;
    let mut i: usize = 0;
    while i < pkg.files.len()
        invariant
            0 <= i <= pkg.files.len(),
            checks@.len() == pkg.files@.len(),
            fs == file_views(pkg.files@),
            sizes_sum(fs) <= u64::MAX,
            (count as nat, size as nat) == outdated_totals(fs.subrange(0, i as int), checks@, verify_hashes),
        decreases pkg.files.len() - i,
    {
        let ghost sub = fs.subrange(0, i + 1);
        assert(sub.drop_last() =~= fs.subrange(0, i as int));
        assert(sub.last() == pkg.files@[i as int]@);
        proof {
            lemma_outdated_totals_bound(fs.subrange(0, i as int), checks@, verify_hashes);
            lemma_sizes_sum_prefix(fs, i + 1);
        }
        let f = &pkg.files[i];
        let c = &checks[i];
        let outdated = if !c.exists || c.len != f.size_bytes {
            true
        } else if verify_hashes {
            match &f.md5_hash {
                Some(h) => match &c.md5 {
                    Some(local) => !eq_chars(&chars_of(local.as_str()), &chars_of(h.as_str())),
                    None => true,
                },
                None => false,
            }
        } else {
            false
        };
        assert(outdated == file_outdated(sub.last(), checks@[i as int], verify_hashes));
        if outdated {
            count = count + 1;
            size = size + f.size_bytes;
        }
        i = i + 1;
    }
    assert(fs.subrange(0, pkg.files@.len() as int) =~= fs);
    let status = if count > 0 {
        "needs_update"
    } else if verify_hashes {
        "up_to_date"
    } else {
        "checking"
    };
    (string_of(&chars_of(status)), count, size)
}

/// The files of a package that an install downloads, in index order: those
/// that are missing, differ in size, or whose MD5 (when the server gives
/// one) is not the server's or could not be computed.
pub open spec fn outdated_files(
    files: Seq<(Seq<char>, u64, Option<Seq<char>>)>,
    checks: Seq<LocalFileCheck>,
) -> Seq<(Seq<char>, u64, Option<Seq<char>>)>
    decreases files.len(),
{
    if files.len() == 0 {
        Seq::empty()
    } else {
        let prev = outdated_files(files.drop_last(), checks);
        if file_outdated(files.last(), checks[files.len() - 1], true) {
            prev.push(files.last())
        } else {
            prev
        }
    }
}

/// The files an install of the package downloads (`checks[i]` is what was
/// found on disk for its `i`-th file).
pub fn files_to_download(pkg: &PackageData, checks: &[LocalFileCheck]) -> (r: Vec<FileEntry>)
    requires
        checks@.len() == pkg.files@.len(),
    ensures
        file_views(r@) == outdated_files(file_views(pkg.files@), checks@),
{
    let ghost fs = file_views(pkg.files@);
    let mut out: Vec<FileEntry> = Vec::new();
    let mut i: usize = 0;
    while i < pkg.files.len()
        invariant
            0 <= i <= pkg.files.len(),
            checks@.len() == pkg.files@.len(),
            fs == file_views(pkg.files@),
            file_views(out@) == outdated_files(fs.subrange(0, i as int), checks@),
        decreases pkg.files.len() - i,
    {
        let ghost sub = fs.subrange(0, i + 1);
        assert(sub.drop_last() =~= fs.subrange(0, i as int));
        assert(sub.last() == pkg.files@[i as int]@);
        let f = &pkg.files[i];
        let c = &checks[i];
        let outdated = if !c.exists || c.len != f.size_bytes {
            true
        } else {
            match &f.md5_hash {
                Some(h) => match &c.md5 {
                    Some(local) => !eq_chars(&chars_of(local.as_str()), &chars_of(h.as_str())),
                    None => true,
                },
                None => false,
            }
        };
        assert(outdated == file_outdated(sub.last(), checks@[i as int], true));
        if outdated {
            let ghost before = out@;
            let e = FileEntry {
                path: f.path.clone(),
                size_bytes: f.size_bytes,
                md5_hash: match &f.md5_hash {
                    Some(h) => Some(h.clone()),
                    None => None,
                },
            };
            out.push(e);
            assert(file_views(out@) =~= file_views(before).push(pkg.files@[i as int]@));
        }
        i = i + 1;
    }
    assert(fs.subrange(0, pkg.files@.len() as int) =~= fs);
    out
}

/// `compare_package` by sizes only.
pub fn compare_package_quick(pkg: &PackageData, checks: &[LocalFileCheck]) -> (r: (String, usize, u64))
    requires
        checks@.len() == pkg.files@.len(),
        sizes_sum(file_views(pkg.files@)) <= u64::MAX,
    ensures
        ({
            let t = outdated_totals(file_views(pkg.files@), checks@, false);
            &&& r.1 == t.0
            &&& r.2 == t.1
            &&& r.0@ == (if t.0 > 0 {
                "needs_update"@
            } else {
                "checking"@
            })
        }),
{
    compare_package(pkg, checks, false)
}

/// `compare_package` with hash checks.
pub fn compare_package_exact(pkg: &PackageData, checks: &[LocalFileCheck]) -> (r: (String, usize, u64))
    requires
        checks@.len() == pkg.files@.len(),
        sizes_sum(file_views(pkg.files@)) <= u64::MAX,
    ensures
        ({
            let t = outdated_totals(file_views(pkg.files@), checks@, true);
            &&& r.1 == t.0
            &&& r.2 == t.1
            &&& r.0@ == (if t.0 > 0 {
                "needs_update"@
            } else {
                "up_to_date"@
            })
        }),
{
    compare_package(pkg, checks, true)
}

/// An ALTITUDE index entry that is metadata, not content: `x-csl-info.info`
/// or an `.idx` file (after the `ALTITUDE/` prefix).
pub open spec fn altitude_metadata(path: Seq<char>) -> bool {
    let rel = if starts_with(path, "ALTITUDE/"@) {
        path.subrange("ALTITUDE/"@.len() as int, path.len() as int)
    } else {
        path
    };
    rel == "x-csl-info.info"@ || (rel.len() >= 4 && rel.subrange(rel.len() - 4, rel.len() as int)
        == ".idx"@)
}

pub fn is_altitude_metadata(file_path: &str) -> (r: bool)
    ensures
        r == altitude_metadata(file_path@),
{
    let p = chars_of(file_path);
    let prefix = chars_of("ALTITUDE/");
    let rel = if starts_with_exec(&p, &prefix) {
        slice_vec(&p, prefix.len(), p.len())
    } else {
        p
    };
    if eq_str(&rel, "x-csl-info.info") {
        return true;
    }
    rel.len() >= 4 && eq_str(&slice_vec(&rel, rel.len() - 4, rel.len()), ".idx")
}


/// For the ALTITUDE package: the number and total size of the outdated
/// content files (hashes checked whenever the server gives one), and the
/// number of content files; metadata entries are left out.
pub open spec fn altitude_totals(
    files: Seq<(Seq<char>, u64, Option<Seq<char>>)>,
    checks: Seq<LocalFileCheck>,
) -> (nat, nat, nat)
    decreases files.len(),
{
    if files.len() == 0 {
        (0, 0, 0)
    } else {
        let prev = altitude_totals(files.drop_last(), checks);
        let f = files.last();
        if altitude_metadata(f.0) {
            prev
        } else if file_outdated(f, checks[files.len() - 1], true) {
            (prev.0 + 1, prev.1 + f.1 as nat, prev.2 + 1)
        } else {
            (prev.0, prev.1, prev.2 + 1)
        }
    }
}

proof fn lemma_altitude_totals_bound(
    files: Seq<(Seq<char>, u64, Option<Seq<char>>)>,
    checks: Seq<LocalFileCheck>,
)
    ensures
        altitude_totals(files, checks).0 <= altitude_totals(files, checks).2 <= files.len(),
        altitude_totals(files, checks).1 <= sizes_sum(files),
    decreases files.len(),
{
    if files.len() > 0 {
        lemma_altitude_totals_bound(files.drop_last(), checks);
    }
}

/// Compares the ALTITUDE package with what is on disk (`checks[i]` for its
/// `i`-th file): `up_to_date` when no content file is outdated,
/// `not_installed` when all are, else `needs_update`; with the number and
/// total size of the outdated files.
pub fn compare_altitude_files(files: &[FileEntry], checks: &[LocalFileCheck]) -> (r: (String, usize, u64))
    requires
        checks@.len() == files@.len(),
        sizes_sum(file_views(files@)) <= u64::MAX,
    ensures
        ({
            let t = altitude_totals(file_views(files@), checks@);
            &&& r.1 == t.0
            &&& r.2 == t.1
            &&& r.0@ == (if t.0 == 0 {
                "up_to_date"@
            } else if t.0 == t.2 {
                "not_installed"@
            } else {
                "needs_update"@
            })
        }),
{
    let ghost fs = file_views(files@);
    let mut count: usize = 0;
    let mut size: u64 = 0;
    let mut content: usize = 0;
    let mut i: usize = 0;
    while i < files.len()
        invariant
            0 <= i <= files.len(),
            checks@.len() == files@.len(),
            fs == file_views(files@),
            sizes_sum(fs) <= u64::MAX,
            (count as nat, size as nat, content as nat) == altitude_totals(fs.subrange(0, i as int), checks@),
        decreases files.len() - i,
    {
        let ghost sub = fs.subrange(0, i + 1);
        assert(sub.drop_last() =~= fs.subrange(0, i as int));
        assert(sub.last() == files@[i as int]@);
        proof {
            lemma_altitude_totals_bound(fs.subrange(0, i as int), checks@);
            lemma_sizes_sum_prefix(fs, i + 1);
        }
        let f = &files[i];
        if !is_altitude_metadata(f.path.as_str()) {
            let c = &checks[i];
            let outdated = if !c.exists || c.len != f.size_bytes {
                true
            } else {
                match &f.md5_hash {
                    Some(h) => match &c.md5 {
                        Some(local) => !eq_chars(&chars_of(local.as_str()), &chars_of(h.as_str())),
                        None => true,
                    },
                    None => false,
                }
            };
            assert(outdated == file_outdated(sub.last(), checks@[i as int], true));
            if outdated {
                count = count + 1;
                size = size + f.size_bytes;
            }
            content = content + 1;
        }
        i = i + 1;
    }
    assert(fs.subrange(0, files@.len() as int) =~= fs);
    let status = if count == 0 {
        "up_to_date"
    } else if count == content {
        "not_installed"
    } else {
        "needs_update"
    };
    (string_of(&chars_of(status)), count, size)
}


/// What is found at the target of a package file when links are synced.
#[derive(Debug, Clone, Copy, PartialEq, Eq, Structural)]
pub enum TargetFileState {
    /// Nothing is there.
    Missing,
    /// A directory (not a link) is there.
    Directory,
    /// A file that matches the canonical one is there.
    Matches,
    /// A file that differs from the canonical one is there.
    Differs,
    /// It could not be examined.
    Unreadable,
}

/// Whether a file counts as work: it is missing, or it was placed by an
/// earlier sync and is no longer a matching file.
pub open spec fn hardlink_file_units(state: TargetFileState, was_managed: bool) -> nat {
    match state {
        TargetFileState::Missing => 1,
        TargetFileState::Matches => 0,
        _ => if was_managed { 1 } else { 0 },
    }
}

pub open spec fn hardlink_units(
    files: Seq<Seq<char>>,
    previous: Seq<Seq<char>>,
    states: Seq<TargetFileState>,
) -> nat
    decreases files.len(),
{
    if files.len() == 0 {
        0
    } else {
        hardlink_units(files.drop_last(), previous, states) + hardlink_file_units(
            states[files.len() - 1],
            previous.contains(files.last()),
        )
    }
}

proof fn lemma_hardlink_units_bound(files: Seq<Seq<char>>, previous: Seq<Seq<char>>, states: Seq<TargetFileState>)
    ensures
        hardlink_units(files, previous, states) <= files.len(),
    decreases files.len(),
{
    if files.len() > 0 {
        lemma_hardlink_units_bound(files.drop_last(), previous, states);
    }
}

fn contains_string(list: &Vec<String>, item: &[char]) -> (r: bool)
    ensures
        r == string_seqs(list@).contains(item@),
{
    let ghost all = string_seqs(list@);
    let mut i: usize = 0;
    while i < list.len()
        invariant
            0 <= i <= list.len(),
            all == string_seqs(list@),
            forall|q: int| 0 <= q < i ==> (#[trigger] all[q]) != item@,
        decreases list.len() - i,
    {
        assert(all[i as int] == list@[i as int]@);
        if eq_chars(&chars_of(list[i].as_str()), item) {
            assert(all[i as int] == item@);
            return true;
        }
        i = i + 1;
    }
    false
}

pub open spec fn string_seqs(v: Seq<String>) -> Seq<Seq<char>> {
    v.map_values(|s: String| s@)
}

/// The work left to sync a package by hard links, counting only what is
/// missing. A package folder that is a link needs nothing when it points at
/// the canonical package, else all of its files (at least one). Otherwise a
/// file is work when it is missing, or when an earlier sync placed it and
/// it is no longer a matching file (`states[i]` is what is at the target of
/// `current_files[i]`; `previous_files` are the files of the last sync).
pub fn estimate_missing_only_hardlink_units(
    link_points_to_canonical: Option<bool>,
    current_files: &Vec<String>,
    previous_files: &Vec<String>,
    states: &[TargetFileState],
) -> (r: usize)
    requires
        states@.len() == current_files@.len(),
    ensures
        r == match link_points_to_canonical {
            Some(true) => 0,
            Some(false) => if current_files@.len() > 0 { current_files@.len() as int } else { 1 },
            None => hardlink_units(string_seqs(current_files@), string_seqs(previous_files@), states@) as int,
        },
{
    match link_points_to_canonical {
        Some(true) => {
            return 0;
        },
        Some(false) => {
            return if current_files.len() > 0 { current_files.len() } else { 1 };
        },
        None => {},
    }
    let ghost fs = string_seqs(current_files@);
    let ghost prev = string_seqs(previous_files@);
    let mut units: usize = 0;
    let mut i: usize = 0;
    while i < current_files.len()
        invariant
            0 <= i <= current_files.len(),
            states@.len() == current_files@.len(),
            fs == string_seqs(current_files@),
            prev == string_seqs(previous_files@),
            units == hardlink_units(fs.subrange(0, i as int), prev, states@),
        decreases current_files.len() - i,
    {
        let ghost sub = fs.subrange(0, i + 1);
        assert(sub.drop_last() =~= fs.subrange(0, i as int));
        assert(sub.last() == current_files@[i as int]@);
        proof {
            lemma_hardlink_units_bound(fs.subrange(0, i as int), prev, states@);
        }
        let was_managed = contains_string(previous_files, &chars_of(current_files[i].as_str()));
        let add: usize = match states[i] {
            TargetFileState::Missing => 1,
            TargetFileState::Matches => 0,
            _ => if was_managed { 1 } else { 0 },
        };
        units = units + add;
        i = i + 1;
    }
    assert(fs.subrange(0, fs.len() as int) =~= fs);
    units
}

/// The work left to sync a package by a directory link, counting only what
/// is missing: a link needs none when it points at the canonical package,
/// else one; a missing folder needs one, an empty folder one, anything else
/// none (`dir_empty` is `None` when the folder could not be read).
pub fn estimate_missing_only_directory_link_units(
    link_points_to_canonical: Option<bool>,
    exists: bool,
    is_dir: bool,
    dir_empty: Option<bool>,
) -> (r: usize)
    ensures
        r == match link_points_to_canonical {
            Some(true) => 0usize,
            Some(false) => 1usize,
            None => if !exists {
                1usize
            } else if is_dir && dir_empty == Some(true) {
                1usize
            } else {
                0usize
            },
        },
{
    match link_points_to_canonical {
        Some(true) => 0,
        Some(false) => 1,
        None => {
            if !exists {
                1
            } else if is_dir {
                match dir_empty {
                    Some(true) => 1,
                    _ => 0,
                }
            } else {
                0
            }
        },
    }
}

/// The number of files a sync of a package goes through: those of its last
/// sync when recorded, else the canonical count when known and non-zero,
/// else the canonical count (at least one) for a linked folder, else the
/// files found under the folder, else one for a folder with none, else none.
pub fn estimate_target_package_units(
    manifest_files: Option<usize>,
    canonical_file_count: Option<usize>,
    is_link: bool,
    discovered_files: usize,
    exists: bool,
) -> (r: usize)
    ensures
        r == (if manifest_files matches Some(n) && n > 0 {
            manifest_files->0
        } else if canonical_file_count matches Some(c) && c > 0 {
            canonical_file_count->0
        } else if is_link {
            match canonical_file_count {
                Some(c) => if c > 0 { c } else { 1 },
                None => 1,
            }
        } else if discovered_files > 0 {
            discovered_files
        } else if exists {
            1
        } else {
            0
        }),
{
    match manifest_files {
        Some(n) => if n > 0 {
            return n;
        },
        None => {},
    }
    match canonical_file_count {
        Some(c) => if c > 0 {
            return c;
        },
        None => {},
    }
    if is_link {
        return match canonical_file_count {
            Some(c) => if c > 0 { c } else { 1 },
            None => 1,
        };
    }
    if discovered_files > 0 {
        discovered_files
    } else if exists {
        1
    } else {
        0
    }
}


/// An entry of a folder that links are synced into: its name, and whether
/// it is a link or an empty folder.
#[derive(Debug, Clone)]
pub struct CleanupEntry {
    pub name: String,
    pub link_or_empty_dir: bool,
}

/// What was read of a folder that links are synced into: the packages of
/// its recorded syncs, and its entries.
#[derive(Debug, Clone)]
pub struct CleanupTargetListing {
    pub manifest_packages: Vec<String>,
    pub entries: Vec<CleanupEntry>,
}

/// The folder that keeps the records of syncs.
pub open spec fn sync_state_dir() -> Seq<char> {
    ".xfast-csl-sync"@
}

pub open spec fn names_upto(s: Seq<String>, i: int) -> Set<Seq<char>> {
    Set::new(|n: Seq<char>| exists|k: int| 0 <= k < i && (#[trigger] s[k])@ == n)
}

pub open spec fn entry_names_upto(s: Seq<CleanupEntry>, i: int) -> Set<Seq<char>> {
    Set::new(
        |n: Seq<char>|
            n != sync_state_dir() && exists|k: int|
                0 <= k < i && (#[trigger] s[k]).link_or_empty_dir && s[k].name@ == n,
    )
}

pub open spec fn target_names_upto(ts: Seq<CleanupTargetListing>, i: int) -> Set<Seq<char>>
    decreases i,
{
    if i <= 0 {
        Set::empty()
    } else {
        target_names_upto(ts, i - 1) + names_upto(ts[i - 1].manifest_packages@, ts[i - 1].manifest_packages@.len() as int)
            + entry_names_upto(ts[i - 1].entries@, ts[i - 1].entries@.len() as int)
    }
}

/// The packages to clean up in the synced folders: the canonical packages,
/// the packages of recorded syncs, and the links and empty folders found
/// (but the records' own folder).
pub open spec fn cleanup_names(canonical: Seq<String>, targets: Seq<CleanupTargetListing>) -> Set<Seq<char>> {
    names_upto(canonical, canonical.len() as int) + target_names_upto(targets, targets.len() as int)
}

pub open spec fn seq_set(s: Seq<Seq<char>>) -> Set<Seq<char>> {
    Set::new(|n: Seq<char>| s.contains(n))
}

pub(crate) fn insert_sorted_unique(v: &mut Vec<String>, x: &str)
    requires
        strictly_sorted(string_seqs(old(v)@)),
    ensures
        strictly_sorted(string_seqs(final(v)@)),
        seq_set(string_seqs(final(v)@)) == seq_set(string_seqs(old(v)@)).insert(x@),
{
    let ghost sv = string_seqs(v@);
    let xc = chars_of(x);
    let mut p: usize = 0;
    while p < v.len() && chars_less(&chars_of(v[p].as_str()), &xc)
        invariant
            0 <= p <= v.len(),
            sv == string_seqs(v@),
            xc@ == x@,
            forall|q: int| 0 <= q < p ==> seq_less(#[trigger] sv[q], x@),
        decreases v.len() - p,
    {
        assert(sv[p as int] == v@[p as int]@);
        p = p + 1;
    }
    if p < v.len() && eq_chars(&chars_of(v[p].as_str()), &xc) {
        assert(sv[p as int] == x@);
        assert(seq_set(sv).insert(x@) =~= seq_set(sv));
        return;
    }
    proof {
        if p < sv.len() {
            assert(sv[p as int] == v@[p as int]@);
            lemma_seq_less_total(sv[p as int], x@);
        }
        assert forall|q: int| p <= q < sv.len() implies seq_less(x@, #[trigger] sv[q]) by {
            if q > p {
                lemma_seq_less_trans(x@, sv[p as int], sv[q]);
            }
        }
    }
    v.insert(p, string_of(&xc));
    let ghost nv = string_seqs(v@);
    assert(nv =~= sv.subrange(0, p as int).push(x@) + sv.subrange(p as int, sv.len() as int));
    assert forall|i: int, j: int| 0 <= i < j < nv.len() implies seq_less(#[trigger] nv[i], #[trigger] nv[j]) by {
        if i < p && j > p {
            assert(nv[i] == sv[i]);
            assert(nv[j] == sv[j - 1]);
        } else if i < p && j == p {
            assert(nv[i] == sv[i]);
        } else if i == p {
            assert(nv[j] == sv[j - 1]);
        } else if i < p {
            assert(nv[i] == sv[i] && nv[j] == sv[j]);
        } else {
            assert(nv[i] == sv[i - 1] && nv[j] == sv[j - 1]);
        }
    }
    assert forall|n: Seq<char>| #[trigger] seq_set(nv).contains(n) <==> seq_set(sv).insert(x@).contains(n) by {
        if nv.contains(n) {
            let k = choose|k: int| 0 <= k < nv.len() && nv[k] == n;
            if k < p {
                assert(sv[k] == n);
            } else if k > p {
                assert(sv[k - 1] == n);
            }
        }
        if sv.contains(n) {
            let k = choose|k: int| 0 <= k < sv.len() && sv[k] == n;
            if k < p {
                assert(nv[k] == n);
            } else {
                assert(nv[k + 1] == n);
            }
        }
        if n == x@ {
            assert(nv[p as int] == n);
        }
    }
    assert(seq_set(nv) =~= seq_set(sv).insert(x@));
}

/// The packages to clean up in the synced folders, sorted, each once.
pub fn collect_cleanup_package_names(canonical_packages: &Vec<String>, targets: &Vec<CleanupTargetListing>) -> (r:
    Vec<String>)
    ensures
        strictly_sorted(string_seqs(r@)),
        seq_set(string_seqs(r@)) == cleanup_names(canonical_packages@, targets@),
{
    let mut out: Vec<String> = Vec::new();
    assert(seq_set(string_seqs(out@)) =~= Set::<Seq<char>>::empty());
    let mut i: usize = 0;
    assert(names_upto(canonical_packages@, 0) =~= Set::<Seq<char>>::empty());
    while i < canonical_packages.len()
        invariant
            0 <= i <= canonical_packages.len(),
            strictly_sorted(string_seqs(out@)),
            seq_set(string_seqs(out@)) == names_upto(canonical_packages@, i as int),
        decreases canonical_packages.len() - i,
    {
        insert_sorted_unique(&mut out, canonical_packages[i].as_str());
        assert(names_upto(canonical_packages@, i + 1) =~= names_upto(canonical_packages@, i as int).insert(
            canonical_packages@[i as int]@,
        ));
        i = i + 1;
    }
    let ghost base = names_upto(canonical_packages@, canonical_packages@.len() as int);
    assert(base + target_names_upto(targets@, 0) =~= base);
    let mut t: usize = 0;
    while t < targets.len()
        invariant
            0 <= t <= targets.len(),
            base == names_upto(canonical_packages@, canonical_packages@.len() as int),
            strictly_sorted(string_seqs(out@)),
            seq_set(string_seqs(out@)) == base + target_names_upto(targets@, t as int),
        decreases targets.len() - t,
    {
        let tg = &targets[t];
        let ghost start = seq_set(string_seqs(out@));
        let mut j: usize = 0;
        assert(start + names_upto(tg.manifest_packages@, 0) =~= start);
        while j < tg.manifest_packages.len()
            invariant
                0 <= j <= tg.manifest_packages.len(),
                strictly_sorted(string_seqs(out@)),
                seq_set(string_seqs(out@)) == start + names_upto(tg.manifest_packages@, j as int),
            decreases tg.manifest_packages.len() - j,
        {
            insert_sorted_unique(&mut out, tg.manifest_packages[j].as_str());
            assert(names_upto(tg.manifest_packages@, j + 1) =~= names_upto(tg.manifest_packages@, j as int).insert(
                tg.manifest_packages@[j as int]@,
            ));
            assert(start + names_upto(tg.manifest_packages@, j + 1) =~= (start + names_upto(
                tg.manifest_packages@,
                j as int,
            )).insert(tg.manifest_packages@[j as int]@));
            j = j + 1;
        }
        let ghost mid = seq_set(string_seqs(out@));
        let state_dir = chars_of(".xfast-csl-sync");
        let mut k: usize = 0;
        assert(mid + entry_names_upto(tg.entries@, 0) =~= mid);
        while k < tg.entries.len()
            invariant
                0 <= k <= tg.entries.len(),
                state_dir@ == sync_state_dir(),
                strictly_sorted(string_seqs(out@)),
                seq_set(string_seqs(out@)) == mid + entry_names_upto(tg.entries@, k as int),
            decreases tg.entries.len() - k,
        {
            let e = &tg.entries[k];
            let name = chars_of(e.name.as_str());
            let keep = e.link_or_empty_dir && !eq_chars(&name, &state_dir);
            if keep {
                insert_sorted_unique(&mut out, e.name.as_str());
                assert(entry_names_upto(tg.entries@, k + 1) =~= entry_names_upto(tg.entries@, k as int).insert(
                    e.name@,
                ));
                assert(mid + entry_names_upto(tg.entries@, k + 1) =~= (mid + entry_names_upto(
                    tg.entries@,
                    k as int,
                )).insert(e.name@));
            } else {
                assert(entry_names_upto(tg.entries@, k + 1) =~= entry_names_upto(tg.entries@, k as int));
            }
            k = k + 1;
        }
        assert(target_names_upto(targets@, t + 1) == target_names_upto(targets@, t as int) + names_upto(
            tg.manifest_packages@,
            tg.manifest_packages@.len() as int,
        ) + entry_names_upto(tg.entries@, tg.entries@.len() as int));
        assert(seq_set(string_seqs(out@)) =~= base + target_names_upto(targets@, t + 1));
        t = t + 1;
    }
    out
}


/// Where an ALTITUDE file lives under the X-Plane folder: a path after the
/// `ALTITUDE/` prefix that starts with `PilotUI/` goes to the IVAO pilot
/// data, one that starts with `Resources/` to the IVAO CSL plugin, anything
/// else under `ALTITUDE` in the default CSL folder. Gives the folder and
/// the rest of the path.
pub open spec fn altitude_location(file_rel: Seq<char>) -> (Seq<char>, Seq<char>) {
    if starts_with(file_rel, "PilotUI/"@) {
        ("Resources/plugins/ivao_pilot/PilotUI/data"@, file_rel.subrange(8, file_rel.len() as int))
    } else if starts_with(file_rel, "Resources/"@) {
        ("Resources/plugins/IVAO_CSL"@, file_rel.subrange(10, file_rel.len() as int))
    } else {
        ("Resources/plugins/IVAO_CSL/CSL/ALTITUDE"@, file_rel)
    }
}

pub fn altitude_local_location(file_rel: &str) -> (r: (String, String))
    ensures
        r.0@ == altitude_location(file_rel@).0,
        r.1@ == altitude_location(file_rel@).1,
{
    let f = chars_of(file_rel);
    let pilot = chars_of("PilotUI/");
    let res = chars_of("Resources/");
    proof {
        reveal_strlit("PilotUI/");
        reveal_strlit("Resources/");
    }
    if starts_with_exec(&f, &pilot) {
        (string_of(&chars_of("Resources/plugins/ivao_pilot/PilotUI/data")), string_of(&slice_vec(&f, 8, f.len())))
    } else if starts_with_exec(&f, &res) {
        (string_of(&chars_of("Resources/plugins/IVAO_CSL")), string_of(&slice_vec(&f, 10, f.len())))
    } else {
        (string_of(&chars_of("Resources/plugins/IVAO_CSL/CSL/ALTITUDE")), string_of(&f))
    }
}

} // verus!
