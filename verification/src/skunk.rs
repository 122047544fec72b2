//! Skunkcrafts updater: the configuration and manifest files of an add-on
//! repository, safe relative paths, and the update plan built from them.

use vstd::prelude::*;
use vstd::hash_map::StringHashMap;
use crate::num::{dec, parse_i64, parse_i64_spec, parse_u64, parse_unsigned};
use crate::text::{
    chars_of, contains, contains_exec, copy_chars, eq_chars, eq_str, find, find_exec, join,
    join_all, lemma_find_after, lines, lines_of, lowercase, occurs_at, push_all, replace_all,
    replace_vec, seqs, slice_vec, split_char, split_pieces, starts_with, starts_with_exec,
    string_of, to_lowercase_chars, trim, trim_start_char, trim_start_char_vec, trim_vec,
};
use crate::xupdater::{parse_url_without_fragment, parsed_url_without_fragment, strip_dot_slash};
use crate::addon::{parsed_url_path, path_segments_of, path_segments_vec, url_path};
use crate::digest::{crc32_hash, crc32_of};

verus! {

/// How an update runs.
#[derive(Debug, Clone)]
pub struct SkunkUpdateOptions {
    pub use_beta: bool,
    pub include_liveries: bool,
    pub apply_blacklist: bool,
    pub rollback_on_failure: bool,
    pub parallel_downloads: Option<usize>,
    pub channel: Option<String>,
    pub fresh_install: bool,
}

/// What an update would do.
#[derive(Debug, Clone)]
pub struct SkunkUpdatePlan {
    pub provider: String,
    pub item_type: String,
    pub folder_name: String,
    pub local_version: Option<String>,
    pub remote_version: Option<String>,
    pub remote_module: Option<String>,
    pub remote_locked: bool,
    pub has_update: bool,
    pub estimated_download_bytes: u64,
    pub add_files: Vec<String>,
    pub replace_files: Vec<String>,
    pub delete_files: Vec<String>,
    pub skip_files: Vec<String>,
    pub warnings: Vec<String>,
}

/// What an update did.
#[derive(Debug, Clone)]
pub struct SkunkUpdateResult {
    pub provider: String,
    pub success: bool,
    pub message: String,
    pub item_type: String,
    pub folder_name: String,
    pub local_version: Option<String>,
    pub remote_version: Option<String>,
    pub updated_files: usize,
    pub deleted_files: usize,
    pub skipped_files: usize,
    pub rollback_used: bool,
}

/// Why a manifest path was refused.
pub open spec fn manifest_path_error(input: Seq<char>, code: u8) -> Seq<char> {
    if code == 0 {
        "Path is empty"@
    } else if code == 1 {
        "Path traversal is not allowed: "@ + input
    } else {
        "Absolute paths are not allowed: "@ + input
    }
}

/// The kept segments of a path, read left to right: empty and `.`
/// segments dropped (after trimming), `..` refused (code 1), a segment with
/// `:` refused (code 2).
pub open spec fn path_segments(pieces: Seq<Seq<char>>) -> Result<Seq<Seq<char>>, u8>
    decreases pieces.len(),
{
    if pieces.len() == 0 {
        Ok(Seq::empty())
    } else {
        match path_segments(pieces.drop_last()) {
            Err(e) => Err(e),
            Ok(parts) => {
                let seg = trim(pieces.last());
                if seg.len() == 0 || seg == seq!['.'] {
                    Ok(parts)
                } else if seg == seq!['.', '.'] {
                    Err(1u8)
                } else if contains(seg, seq![':']) {
                    Err(2u8)
                } else {
                    Ok(parts.push(seg))
                }
            },
        }
    }
}

/// The text of a path before it is split: trimmed, `\` turned into `/`,
/// leading `./` and `/` removed.
pub open spec fn manifest_path_text(path: Seq<char>) -> Seq<char> {
    trim_start_char(strip_dot_slash(replace_all(trim(path), seq!['\\'], seq!['/'])), '/')
}

/// A manifest path as a safe relative path: its kept segments joined by
/// `/`; an error (code 0) when nothing is left.
pub open spec fn manifest_path(path: Seq<char>) -> Result<Seq<char>, u8> {
    let text = manifest_path_text(path);
    if text.len() == 0 {
        Err(0u8)
    } else {
        match path_segments(split_pieces(text, '/')) {
            Err(e) => Err(e),
            Ok(parts) => if parts.len() == 0 {
                Err(0u8)
            } else {
                Ok(join(parts, seq!['/']))
            },
        }
    }
}

fn path_error(input: &str, code: u8) -> (r: String)
    ensures
        r@ == manifest_path_error(input@, code),
{
    if code == 0 {
        string_of(&chars_of("Path is empty"))
    } else if code == 1 {
        let mut v = chars_of("Path traversal is not allowed: ");
        push_all(&mut v, &chars_of(input));
        string_of(&v)
    } else {
        let mut v = chars_of("Absolute paths are not allowed: ");
        push_all(&mut v, &chars_of(input));
        string_of(&v)
    }
}

/// Normalises a path from a manifest; errors for empty, traversing or
/// absolute paths.
#[verifier::loop_isolation(false)]
pub fn normalize_manifest_path(path: &str) -> (r: Result<String, String>)
    ensures
        match manifest_path(path@) {
            Ok(p) => r matches Ok(s) && s@ == p,
            Err(code) => r matches Err(e) && e@ == manifest_path_error(path@, code),
        },
{
    let t = trim_vec(&chars_of(path));
    let mut bs: Vec<char> = Vec::new();
    bs.push('\\');
    let mut sl: Vec<char> = Vec::new();
    sl.push('/');
    assert(bs@ =~= seq!['\\']);
    assert(sl@ =~= seq!['/']);
    let v = replace_vec(&t, &bs, &sl);
    let mut i: usize = 0;
    assert(v@.subrange(0, v@.len() as int) =~= v@);
    while v.len() >= 2 && i < v.len() - 1 && v[i] == '.' && v[i + 1] == '/'
        invariant
            0 <= i <= v.len(),
            strip_dot_slash(v@) == strip_dot_slash(v@.subrange(i as int, v@.len() as int)),
        decreases v.len() - i,
    {
        assert(v@.subrange(i as int, v@.len() as int).subrange(2, v@.len() - i) =~= v@.subrange(
            i + 2,
            v@.len() as int,
        ));
        i = i + 2;
    }
    let rest = slice_vec(&v, i, v.len());
    let text = trim_start_char_vec(&rest, '/');
    if text.len() == 0 {
        return Err(path_error(path, 0));
    }
    let pieces = split_char(&text, '/');
    let ghost ps = seqs(pieces@);
    let mut parts: Vec<Vec<char>> = Vec::new();
    let mut k: usize = 0;
    assert(seqs(parts@) =~= Seq::<Seq<char>>::empty());
    assert(ps.subrange(0, 0) =~= Seq::<Seq<char>>::empty());
    while k < pieces.len()
        invariant
            0 <= k <= pieces.len(),
            ps == seqs(pieces@),
            path_segments(ps.subrange(0, k as int)) == Ok::<Seq<Seq<char>>, u8>(seqs(parts@)),
        decreases pieces.len() - k,
    {
        assert(ps.subrange(0, k + 1).drop_last() =~= ps.subrange(0, k as int));
        assert(ps.subrange(0, k + 1).last() == pieces@[k as int]@);
        let seg = trim_vec(&pieces[k]);
        let mut dot: Vec<char> = Vec::new();
        dot.push('.');
        let mut dotdot: Vec<char> = Vec::new();
        dotdot.push('.');
        dotdot.push('.');
        let mut colon: Vec<char> = Vec::new();
        colon.push(':');
        assert(dot@ =~= seq!['.']);
        assert(dotdot@ =~= seq!['.', '.']);
        assert(colon@ =~= seq![':']);
        if seg.len() == 0 || eq_chars(&seg, &dot) {
        } else if eq_chars(&seg, &dotdot) {
            proof {
                lemma_path_segments_err(ps, k as int + 1, 1u8);
            }
            return Err(path_error(path, 1));
        } else if contains_exec(&seg, &colon) {
            proof {
                lemma_path_segments_err(ps, k as int + 1, 2u8);
            }
            return Err(path_error(path, 2));
        } else {
            let ghost before = seqs(parts@);
            parts.push(seg);
            assert(seqs(parts@) =~= before.push(trim(ps[k as int])));
        }
        k = k + 1;
    }
    assert(ps.subrange(0, pieces@.len() as int) =~= ps);
    if parts.len() == 0 {
        return Err(path_error(path, 0));
    }
    Ok(string_of(&join_all(&parts, &sl)))
}

/// Once reading the segments fails, it fails the same way on longer input.
proof fn lemma_path_segments_err(ps: Seq<Seq<char>>, k: int, code: u8)
    requires
        0 <= k <= ps.len(),
        path_segments(ps.subrange(0, k)) == Err::<Seq<Seq<char>>, u8>(code),
    ensures
        path_segments(ps) == Err::<Seq<Seq<char>>, u8>(code),
    decreases ps.len() - k,
{
    if k < ps.len() {
        assert(ps.subrange(0, k + 1).drop_last() =~= ps.subrange(0, k));
        lemma_path_segments_err(ps, k + 1, code);
    } else {
        assert(ps.subrange(0, k) =~= ps);
    }
}

/// A path inside a `liveries` folder (compared in Unicode lower case).
pub open spec fn livery_path(rel_path: Seq<char>) -> bool {
    starts_with(lowercase(rel_path), "liveries/"@) || contains(lowercase(rel_path), "/liveries/"@)
}

pub fn is_livery_path(rel_path: &str) -> (r: bool)
    ensures
        r == livery_path(rel_path@),
{
    let lower = to_lowercase_chars(&chars_of(rel_path));
    starts_with_exec(&lower, &chars_of("liveries/")) || contains_exec(&lower, &chars_of("/liveries/"))
}

/// A trimmed line of a list file that holds nothing: empty or a comment.
pub open spec fn list_comment_line(line: Seq<char>) -> bool {
    line.len() == 0 || line[0] == '#'
}

/// A line split at its first `|`.
pub open spec fn bar_parts(line: Seq<char>) -> Option<(Seq<char>, Seq<char>)> {
    match find(line, seq!['|']) {
        Some(i) => Some((line.subrange(0, i), line.subrange(i + 1, line.len() as int))),
        None => None,
    }
}

fn split_bar(line: &[char]) -> (r: Option<(Vec<char>, Vec<char>)>)
    ensures
        match bar_parts(line@) {
            Some((a, b)) => r matches Some((x, y)) && x@ == a && y@ == b,
            None => r is None,
        },
{
    let mut bar: Vec<char> = Vec::new();
    bar.push('|');
    assert(bar@ =~= seq!['|']);
    proof {
        lemma_find_after(line@, seq!['|'], 0);
    }
    let n = line.len();
    assert(n == line@.len());
    match find_exec(line, &bar) {
        Some(i) => {
            assert(occurs_at(line@, bar@, i as int));
            Some((slice_vec(line, 0, i), slice_vec(line, i + 1, n)))
        },
        None => None,
    }
}

/// The settings of a `key|value` file: keys trimmed and lower-cased
/// (Unicode), values trimmed, comments and lines without `|` or with an
/// empty key skipped; a later line wins.
pub open spec fn cfg_settings(ls: Seq<Seq<char>>) -> Map<Seq<char>, Seq<char>>
    decreases ls.len(),
{
    if ls.len() == 0 {
        Map::empty()
    } else {
        let prev = cfg_settings(ls.drop_last());
        let line = trim(ls.last());
        if list_comment_line(line) {
            prev
        } else {
            match bar_parts(line) {
                Some((k, v)) => {
                    let key = lowercase(trim(k));
                    if key.len() > 0 {
                        prev.insert(key, trim(v))
                    } else {
                        prev
                    }
                },
                None => prev,
            }
        }
    }
}

/// The map of string views of a string map.
pub open spec fn settings_view(m: Map<Seq<char>, String>) -> Map<Seq<char>, Seq<char>> {
    m.map_values(|v: String| v@)
}

/// Reads a `key|value` configuration file.
pub fn parse_cfg_lines(content: &str) -> (r: StringHashMap<String>)
    ensures
        settings_view(r@) == cfg_settings(lines(content@)),
{
    let ls = lines_of(&chars_of(content));
    let ghost all = seqs(ls@);
    let mut map: StringHashMap<String> = StringHashMap::new();
    let mut i: usize = 0;
    assert(settings_view(map@) =~= cfg_settings(all.subrange(0, 0)));
    while i < ls.len()
        invariant
            0 <= i <= ls.len(),
            all == seqs(ls@),
            settings_view(map@) == cfg_settings(all.subrange(0, i as int)),
        decreases ls.len() - i,
    {
        assert(all.subrange(0, i + 1).drop_last() =~= all.subrange(0, i as int));
        assert(all.subrange(0, i + 1).last() == ls@[i as int]@);
        let line = trim_vec(&ls[i]);
        if !(line.len() == 0 || line[0] == '#') {
            match split_bar(&line) {
                Some((k, v)) => {
                    let key = to_lowercase_chars(&trim_vec(&k));
                    if key.len() > 0 {
                        let ghost before = map@;
                        let value = string_of(&trim_vec(&v));
                        map.insert(string_of(&key), value);
                        assert(settings_view(map@) =~= settings_view(before).insert(
                            key@,
                            value@,
                        ));
                    }
                },
                None => {},
            }
        }
        i = i + 1;
    }
    assert(all.subrange(0, ls@.len() as int) =~= all);
    map
}

/// A yes/no setting: `true`, `1`, `yes`, `on` or their opposites, trimmed
/// and in any case (Unicode lower-casing).
pub open spec fn bool_setting(value: Seq<char>) -> Option<bool> {
    let v = lowercase(trim(value));
    if v == "true"@ || v == "1"@ || v == "yes"@ || v == "on"@ {
        Some(true)
    } else if v == "false"@ || v == "0"@ || v == "no"@ || v == "off"@ {
        Some(false)
    } else {
        None
    }
}

pub fn parse_bool(value: &str) -> (r: Option<bool>)
    ensures
        r == bool_setting(value@),
{
    let v = to_lowercase_chars(&trim_vec(&chars_of(value)));
    if eq_str(&v, "true") || eq_str(&v, "1") || eq_str(&v, "yes") || eq_str(&v, "on") {
        Some(true)
    } else if eq_str(&v, "false") || eq_str(&v, "0") || eq_str(&v, "no") || eq_str(&v, "off") {
        Some(false)
    } else {
        None
    }
}

/// Why a module URL is refused: it does not parse, or its scheme is not
/// HTTP(S); `None` when it is accepted.
pub open spec fn module_url_error(url: Seq<char>) -> Option<Seq<char>> {
    match parsed_url_without_fragment(url) {
        None => Some("Invalid module URL '"@ + url + "'"@),
        Some((scheme, _t)) => if scheme == "http"@ || scheme == "https"@ {
            None
        } else {
            Some("Only HTTP(S) module URLs are supported"@)
        },
    }
}

/// Accepts only URLs that parse with an `http` or `https` scheme.
pub fn ensure_http_or_https(url: &str) -> (r: Result<(), String>)
    ensures
        match module_url_error(url@) {
            None => r is Ok,
            Some(e) => r matches Err(x) && x@ == e,
        },
{
    match parse_url_without_fragment(url) {
        None => {
            let mut v = chars_of("Invalid module URL '");
            push_all(&mut v, &chars_of(url));
            push_all(&mut v, &chars_of("'"));
            Err(string_of(&v))
        },
        Some((scheme, _text)) => {
            let s = chars_of(scheme.as_str());
            if eq_str(&s, "http") || eq_str(&s, "https") {
                Ok(())
            } else {
                Err(string_of(&chars_of("Only HTTP(S) module URLs are supported")))
            }
        },
    }
}

/// The local configuration of an add-on.
#[derive(Debug, Clone)]
pub struct LocalConfig {
    pub module: String,
    pub version: Option<String>,
    pub liveries: bool,
    pub beta_module: Option<String>,
}

/// The remote configuration of a repository.
#[derive(Debug, Clone)]
pub struct RemoteConfig {
    pub version: String,
    pub locked: bool,
}

/// The module to update from: the beta module when asked for and known.
pub fn select_module_url(local: &LocalConfig, use_beta: bool) -> (r: String)
    ensures
        r@ == (match local.beta_module {
            Some(b) if use_beta => b@,
            _ => local.module@,
        }),
{
    if use_beta {
        match &local.beta_module {
            Some(b) => return b.clone(),
            None => {},
        }
    }
    local.module.clone()
}

/// Reads the remote configuration: `version|` is required, `locked|`
/// defaults to no.
pub fn remote_config_from_text(content: &str) -> (r: Result<RemoteConfig, String>)
    ensures
        ({
            let m = cfg_settings(lines(content@));
            match r {
                Ok(c) => m.contains_key("version"@) && c.version@ == trim(m["version"@])
                    && c.locked == (m.contains_key("locked"@) && bool_setting(m["locked"@])
                    == Some(true)),
                Err(e) => !m.contains_key("version"@) && e@
                    == "Remote config is missing 'version|'"@,
            }
        }),
{
    let map = parse_cfg_lines(content);
    let version = match map.get("version") {
        Some(v) => trim_vec(&chars_of(v.as_str())),
        None => return Err(string_of(&chars_of("Remote config is missing 'version|'"))),
    };
    let locked = match map.get("locked") {
        Some(v) => match parse_bool(v.as_str()) {
            Some(b) => b,
            None => false,
        },
        None => false,
    };
    proof {
        reveal_strlit("version");
        reveal_strlit("locked");
    }
    Ok(RemoteConfig { version: string_of(&version), locked })
}

pub open spec fn opt_trimmed_nonempty(o: Option<Seq<char>>) -> Option<Seq<char>> {
    match o {
        Some(v) => if trim(v).len() > 0 {
            Some(trim(v))
        } else {
            None
        },
        None => None,
    }
}

/// The beta module named by the text of a beta configuration, trimmed,
/// when it is there and not blank.
pub open spec fn beta_module_of(beta_text: Option<Seq<char>>) -> Option<Seq<char>> {
    match beta_text {
        Some(bt) => opt_trimmed_nonempty(
            if cfg_settings(lines(bt)).contains_key("module"@) {
                Some(cfg_settings(lines(bt))["module"@])
            } else {
                None
            },
        ),
        None => None,
    }
}

/// Why a local configuration is refused, in the order of the checks: no
/// `module|`, a module that is not an HTTP(S) URL, a beta module that is
/// not one; `None` when it is accepted.
pub open spec fn local_config_error(cfg_path: Seq<char>, cfg_text: Seq<char>, beta_text: Option<Seq<char>>) -> Option<
    Seq<char>,
> {
    let m = cfg_settings(lines(cfg_text));
    if !m.contains_key("module"@) {
        Some("Missing 'module|' in "@ + cfg_path)
    } else if module_url_error(m["module"@]) is Some {
        module_url_error(m["module"@])
    } else {
        match beta_module_of(beta_text) {
            Some(b) => module_url_error(b),
            None => None,
        }
    }
}

/// The local configuration read from the text of the add-on's
/// configuration (at `cfg_path`) and of its beta configuration when there
/// is one: `module|` is required and must be an HTTP(S) URL, as must a
/// beta module; liveries default to yes. It is read exactly when
/// `local_config_error` finds nothing, else that error is given.
pub fn read_local_config(cfg_path: &str, cfg_text: &str, beta_text: Option<&str>) -> (r: Result<
    LocalConfig,
    String,
>)
    ensures
        ({
            let m = cfg_settings(lines(cfg_text@));
            let bt = match beta_text {
                Some(t) => Some(t@),
                None => None::<Seq<char>>,
            };
            match local_config_error(cfg_path@, cfg_text@, bt) {
                Some(e) => r matches Err(x) && x@ == e,
                None => r matches Ok(c) && {
                    &&& module_url_error(m["module"@]) is None
                    &&& c.module@ == trim(m["module"@])
                    &&& (match c.version {
                        Some(v) => Some(v@),
                        None => None,
                    }) == opt_trimmed_nonempty(
                        if m.contains_key("version"@) {
                            Some(m["version"@])
                        } else {
                            None
                        },
                    )
                    &&& c.liveries == (!m.contains_key("liveries"@) || bool_setting(m["liveries"@])
                        != Some(false))
                    &&& (match c.beta_module {
                        Some(b) => Some(b@),
                        None => None,
                    }) == beta_module_of(bt)
                    &&& (c.beta_module matches Some(b) ==> module_url_error(b@) is None)
                },
            }
        }),
{
    proof {
        reveal_strlit("module");
        reveal_strlit("version");
        reveal_strlit("liveries");
    }
    let map = parse_cfg_lines(cfg_text);
    let module = match map.get("module") {
        Some(m) => m.clone(),
        None => {
            let mut v = chars_of("Missing 'module|' in ");
            push_all(&mut v, &chars_of(cfg_path));
            return Err(string_of(&v));
        },
    };
    match ensure_http_or_https(module.as_str()) {
        Ok(()) => {},
        Err(e) => return Err(e),
    }
    let version = match map.get("version") {
        Some(v) => {
            let t = trim_vec(&chars_of(v.as_str()));
            if t.len() > 0 {
                Some(string_of(&t))
            } else {
                None
            }
        },
        None => None,
    };
    let liveries = match map.get("liveries") {
        Some(v) => match parse_bool(v.as_str()) {
            Some(b) => b,
            None => true,
        },
        None => true,
    };
    let beta_module = match beta_text {
        Some(bt) => {
            let beta_map = parse_cfg_lines(bt);
            match beta_map.get("module") {
                Some(v) => {
                    let t = trim_vec(&chars_of(v.as_str()));
                    if t.len() > 0 {
                        Some(string_of(&t))
                    } else {
                        None
                    }
                },
                None => None,
            }
        },
        None => None,
    };
    match &beta_module {
        Some(b) => match ensure_http_or_https(b.as_str()) {
            Ok(()) => {},
            Err(e) => return Err(e),
        },
        None => {},
    }
    let module_t = string_of(&trim_vec(&chars_of(module.as_str())));
    Ok(LocalConfig { module: module_t, version, liveries, beta_module })
}

/// A path of the whitelist with its expected CRC32 (negative: copy once).
#[derive(Debug, Clone)]
pub struct WhitelistEntry {
    pub path: String,
    pub crc32: i64,
}

/// A path of the sizes list with its size.
#[derive(Debug, Clone)]
pub struct SizeEntry {
    pub path: String,
    pub size: u64,
}

/// The index of the entry with key `k`.
pub open spec fn key_index<T>(list: Seq<(Seq<char>, T)>, k: Seq<char>) -> Option<int>
    decreases list.len(),
{
    if list.len() == 0 {
        None
    } else if list.last().0 == k {
        Some(list.len() - 1)
    } else {
        key_index(list.drop_last(), k)
    }
}

proof fn lemma_key_index<T>(list: Seq<(Seq<char>, T)>, k: Seq<char>)
    ensures
        key_index(list, k) matches Some(i) ==> 0 <= i < list.len() && list[i].0 == k,
        key_index(list, k) is None ==> forall|j: int| 0 <= j < list.len() ==> (#[trigger] list[j]).0 != k,
    decreases list.len(),
{
    if list.len() > 0 {
        lemma_key_index(list.drop_last(), k);
        assert forall|j: int| 0 <= j < list.len() - 1 implies #[trigger] list.drop_last()[j] == list[j] by {}
        if key_index(list, k) is None {
            assert(list[list.len() - 1] == list.last());
            assert forall|j: int| 0 <= j < list.len() implies (#[trigger] list[j]).0 != k by {
                if j < list.len() - 1 {
                    assert(list.drop_last()[j] == list[j]);
                }
            }
        }
    }
}

/// Sets the value of key `k`: in place when present, else appended.
pub open spec fn upsert<T>(list: Seq<(Seq<char>, T)>, k: Seq<char>, v: T) -> Seq<(Seq<char>, T)> {
    match key_index(list, k) {
        Some(i) => list.update(i, (k, v)),
        None => list.push((k, v)),
    }
}

pub open spec fn whitelist_views(v: Seq<WhitelistEntry>) -> Seq<(Seq<char>, i64)> {
    v.map_values(|e: WhitelistEntry| (e.path@, e.crc32))
}

pub open spec fn size_views(v: Seq<SizeEntry>) -> Seq<(Seq<char>, u64)> {
    v.map_values(|e: SizeEntry| (e.path@, e.size))
}

pub open spec fn string_views(v: Seq<String>) -> Seq<Seq<char>> {
    v.map_values(|s: String| s@)
}

/// Reading the whitelist: entries so far and the warnings given.
pub open spec fn whitelist_scan(ls: Seq<Seq<char>>) -> (Seq<(Seq<char>, i64)>, Seq<Seq<char>>)
    decreases ls.len(),
{
    if ls.len() == 0 {
        (Seq::empty(), Seq::empty())
    } else {
        let st = whitelist_scan(ls.drop_last());
        let line = trim(ls.last());
        if list_comment_line(line) {
            st
        } else {
            match bar_parts(line) {
                None => (st.0, st.1.push("Skipped malformed whitelist line '"@ + line + "'"@)),
                Some((p, c)) => match manifest_path(p) {
                    Err(code) => (
                        st.0,
                        st.1.push(
                            "Skipped unsafe whitelist path '"@ + trim(p) + "': "@
                                + manifest_path_error(p, code),
                        ),
                    ),
                    Ok(path) => match parse_i64_spec(trim(c)) {
                        None => (
                            st.0,
                            st.1.push(
                                "Skipped whitelist path '"@ + path + "' due to invalid CRC '"@
                                    + trim(c) + "'"@,
                            ),
                        ),
                        Some(v) => (upsert(st.0, path, v as i64), st.1),
                    },
                },
            }
        }
    }
}

fn quoted_message(a: &str, b: &[char], c: &str) -> (r: String)
    ensures
        r@ == a@ + b@ + c@,
{
    let mut v = chars_of(a);
    push_all(&mut v, b);
    push_all(&mut v, &chars_of(c));
    string_of(&v)
}

fn push_warning(warnings: &mut Vec<String>, w: String)
    ensures
        string_views(final(warnings)@) == string_views(old(warnings)@).push(w@),
{
    let ghost before = string_views(warnings@);
    warnings.push(w);
    assert(string_views(warnings@) =~= before.push(w@));
}

/// Reads the whitelist (`path|crc32` lines); a later line for a path sets
/// its CRC. Lines that cannot be used are skipped with a warning.
pub fn parse_whitelist(content: &str, warnings: &mut Vec<String>) -> (r: Vec<WhitelistEntry>)
    ensures
        whitelist_views(r@) == whitelist_scan(lines(content@)).0,
        string_views(final(warnings)@) == string_views(old(warnings)@) + whitelist_scan(
            lines(content@),
        ).1,
{
    let ls = lines_of(&chars_of(content));
    let ghost all = seqs(ls@);
    let ghost w0 = string_views(warnings@);
    let mut entries: Vec<WhitelistEntry> = Vec::new();
    let mut i: usize = 0;
    assert(string_views(warnings@) =~= w0 + whitelist_scan(all.subrange(0, 0)).1);
    while i < ls.len()
        invariant
            0 <= i <= ls.len(),
            all == seqs(ls@),
            whitelist_views(entries@) == whitelist_scan(all.subrange(0, i as int)).0,
            string_views(warnings@) == w0 + whitelist_scan(all.subrange(0, i as int)).1,
        decreases ls.len() - i,
    {
        assert(all.subrange(0, i + 1).drop_last() =~= all.subrange(0, i as int));
        assert(all.subrange(0, i + 1).last() == ls@[i as int]@);
        let ghost wb = whitelist_scan(all.subrange(0, i as int)).1;
        let line = trim_vec(&ls[i]);
        if !(line.len() == 0 || line[0] == '#') {
            match split_bar(&line) {
                None => {
                    push_warning(warnings, quoted_message("Skipped malformed whitelist line '", &line, "'"));
                    assert(w0 + wb.push("Skipped malformed whitelist line '"@ + line@ + "'"@) =~= (w0
                        + wb).push("Skipped malformed whitelist line '"@ + line@ + "'"@));
                },
                Some((p, c)) => {
                    let ps = string_of(&p);
                    match normalize_manifest_path(ps.as_str()) {
                        Err(e) => {
                            let pt = trim_vec(&p);
                            let mut v = chars_of("Skipped unsafe whitelist path '");
                            push_all(&mut v, &pt);
                            push_all(&mut v, &chars_of("': "));
                            push_all(&mut v, &chars_of(e.as_str()));
                            let ghost msg = v@;
                            push_warning(warnings, string_of(&v));
                            assert(w0 + wb.push(msg) =~= (w0 + wb).push(msg));
                        },
                        Ok(path) => {
                            let ct = trim_vec(&c);
                            match parse_i64(&ct) {
                                None => {
                                    let mut v = chars_of("Skipped whitelist path '");
                                    push_all(&mut v, &chars_of(path.as_str()));
                                    push_all(&mut v, &chars_of("' due to invalid CRC '"));
                                    push_all(&mut v, &ct);
                                    push_all(&mut v, &chars_of("'"));
                                    let ghost msg = v@;
                                    push_warning(warnings, string_of(&v));
                                    assert(w0 + wb.push(msg) =~= (w0 + wb).push(msg));
                                },
                                Some(crc) => {
                                    upsert_whitelist(&mut entries, path, crc);
                                },
                            }
                        },
                    }
                },
            }
        }
        i = i + 1;
    }
    assert(all.subrange(0, ls@.len() as int) =~= all);
    entries
}

fn upsert_whitelist(entries: &mut Vec<WhitelistEntry>, path: String, crc: i64)
    ensures
        whitelist_views(final(entries)@) == upsert(whitelist_views(old(entries)@), path@, crc),
{
    let ghost s = whitelist_views(entries@);
    proof {
        lemma_key_index(s, path@);
    }
    let mut j = entries.len();
    assert(s.subrange(0, j as int) =~= s);
    while j > 0
        invariant
            j <= entries.len(),
            entries@ == old(entries)@,
            s == whitelist_views(entries@),
            key_index(s, path@) == key_index(s.subrange(0, j as int), path@),
        decreases j,
    {
        assert(s.subrange(0, j as int).drop_last() =~= s.subrange(0, j - 1));
        assert(s.subrange(0, j as int).last() == s[j - 1]);
        if eq_chars(&chars_of(entries[j - 1].path.as_str()), &chars_of(path.as_str())) {
            let ghost k = path@;
            entries.set(j - 1, WhitelistEntry { path, crc32: crc });
            assert(whitelist_views(entries@) =~= s.update(j - 1, (k, crc)));
            return;
        }
        j = j - 1;
    }
    let ghost k = path@;
    entries.push(WhitelistEntry { path, crc32: crc });
    assert(whitelist_views(entries@) =~= s.push((k, crc)));
}

/// The path part of a list line: before its first `|`, or all of it.
pub open spec fn list_path_part(line: Seq<char>) -> Seq<char> {
    match bar_parts(line) {
        Some((a, _b)) => a,
        None => line,
    }
}

/// Reading a path list: the distinct paths in order of first appearance,
/// and the warnings for paths that are not safe.
pub open spec fn path_set_scan(ls: Seq<Seq<char>>) -> (Seq<Seq<char>>, Seq<Seq<char>>)
    decreases ls.len(),
{
    if ls.len() == 0 {
        (Seq::empty(), Seq::empty())
    } else {
        let st = path_set_scan(ls.drop_last());
        let line = trim(ls.last());
        if list_comment_line(line) {
            st
        } else {
            let raw = list_path_part(line);
            match manifest_path(raw) {
                Ok(p) => (
                    if st.0.contains(p) {
                        st.0
                    } else {
                        st.0.push(p)
                    },
                    st.1,
                ),
                Err(code) => (
                    st.0,
                    st.1.push(
                        "Skipped unsafe list path '"@ + trim(raw) + "': "@ + manifest_path_error(
                            raw,
                            code,
                        ),
                    ),
                ),
            }
        }
    }
}

fn contains_string(list: &Vec<String>, s: &String) -> (r: bool)
    ensures
        r == string_views(list@).contains(s@),
{
    let ghost v = string_views(list@);
    let mut i: usize = 0;
    while i < list.len()
        invariant
            0 <= i <= list.len(),
            v == string_views(list@),
            forall|j: int| 0 <= j < i ==> v[j] != s@,
        decreases list.len() - i,
    {
        assert(v[i as int] == list@[i as int]@);
        if list[i] == *s {
            assert(v[i as int] == s@);
            return true;
        }
        i = i + 1;
    }
    false
}

/// Reads a list of paths (ignore, copy-once and delete lists).
pub fn parse_path_set(content: &str, warnings: &mut Vec<String>) -> (r: Vec<String>)
    ensures
        string_views(r@) == path_set_scan(lines(content@)).0,
        string_views(final(warnings)@) == string_views(old(warnings)@) + path_set_scan(
            lines(content@),
        ).1,
{
    let ls = lines_of(&chars_of(content));
    let ghost all = seqs(ls@);
    let ghost w0 = string_views(warnings@);
    let mut set: Vec<String> = Vec::new();
    let mut i: usize = 0;
    assert(string_views(warnings@) =~= w0 + path_set_scan(all.subrange(0, 0)).1);
    assert(string_views(set@) =~= path_set_scan(all.subrange(0, 0)).0);
    while i < ls.len()
        invariant
            0 <= i <= ls.len(),
            all == seqs(ls@),
            string_views(set@) == path_set_scan(all.subrange(0, i as int)).0,
            string_views(warnings@) == w0 + path_set_scan(all.subrange(0, i as int)).1,
        decreases ls.len() - i,
    {
        assert(all.subrange(0, i + 1).drop_last() =~= all.subrange(0, i as int));
        assert(all.subrange(0, i + 1).last() == ls@[i as int]@);
        let ghost wb = path_set_scan(all.subrange(0, i as int)).1;
        let line = trim_vec(&ls[i]);
        if !(line.len() == 0 || line[0] == '#') {
            let raw = match split_bar(&line) {
                Some((a, _b)) => a,
                None => line,
            };
            let raw_s = string_of(&raw);
            match normalize_manifest_path(raw_s.as_str()) {
                Ok(p) => {
                    if !contains_string(&set, &p) {
                        let ghost before = string_views(set@);
                        let ghost pv = p@;
                        set.push(p);
                        assert(string_views(set@) =~= before.push(pv));
                    }
                },
                Err(e) => {
                    let mut v = chars_of("Skipped unsafe list path '");
                    push_all(&mut v, &trim_vec(&raw));
                    push_all(&mut v, &chars_of("': "));
                    push_all(&mut v, &chars_of(e.as_str()));
                    let ghost msg = v@;
                    push_warning(warnings, string_of(&v));
                    assert(w0 + wb.push(msg) =~= (w0 + wb).push(msg));
                },
            }
        }
        i = i + 1;
    }
    assert(all.subrange(0, ls@.len() as int) =~= all);
    set
}

/// Reading the sizes list (`path|size` lines), as for the whitelist.
pub open spec fn sizes_scan(ls: Seq<Seq<char>>) -> (Seq<(Seq<char>, u64)>, Seq<Seq<char>>)
    decreases ls.len(),
{
    if ls.len() == 0 {
        (Seq::empty(), Seq::empty())
    } else {
        let st = sizes_scan(ls.drop_last());
        let line = trim(ls.last());
        if list_comment_line(line) {
            st
        } else {
            match bar_parts(line) {
                None => (st.0, st.1.push("Skipped malformed sizeslist line '"@ + line + "'"@)),
                Some((p, c)) => match manifest_path(p) {
                    Err(code) => (
                        st.0,
                        st.1.push(
                            "Skipped unsafe sizeslist path '"@ + trim(p) + "': "@
                                + manifest_path_error(p, code),
                        ),
                    ),
                    Ok(path) => match parse_unsigned(trim(c), u64::MAX as nat) {
                        None => (
                            st.0,
                            st.1.push(
                                "Skipped sizeslist path '"@ + path + "' due to invalid size '"@
                                    + trim(c) + "'"@,
                            ),
                        ),
                        Some(v) => (upsert(st.0, path, v as u64), st.1),
                    },
                },
            }
        }
    }
}

fn upsert_size(entries: &mut Vec<SizeEntry>, path: String, size: u64)
    ensures
        size_views(final(entries)@) == upsert(size_views(old(entries)@), path@, size),
{
    let ghost s = size_views(entries@);
    let mut j = entries.len();
    assert(s.subrange(0, j as int) =~= s);
    while j > 0
        invariant
            j <= entries.len(),
            entries@ == old(entries)@,
            s == size_views(entries@),
            key_index(s, path@) == key_index(s.subrange(0, j as int), path@),
        decreases j,
    {
        assert(s.subrange(0, j as int).drop_last() =~= s.subrange(0, j - 1));
        assert(s.subrange(0, j as int).last() == s[j - 1]);
        if eq_chars(&chars_of(entries[j - 1].path.as_str()), &chars_of(path.as_str())) {
            let ghost k = path@;
            entries.set(j - 1, SizeEntry { path, size });
            assert(size_views(entries@) =~= s.update(j - 1, (k, size)));
            return;
        }
        j = j - 1;
    }
    let ghost k = path@;
    entries.push(SizeEntry { path, size });
    assert(size_views(entries@) =~= s.push((k, size)));
}

/// Reads the sizes list.
pub fn parse_sizes_list(content: &str, warnings: &mut Vec<String>) -> (r: Vec<SizeEntry>)
    ensures
        size_views(r@) == sizes_scan(lines(content@)).0,
        string_views(final(warnings)@) == string_views(old(warnings)@) + sizes_scan(
            lines(content@),
        ).1,
{
    let ls = lines_of(&chars_of(content));
    let ghost all = seqs(ls@);
    let ghost w0 = string_views(warnings@);
    let mut entries: Vec<SizeEntry> = Vec::new();
    let mut i: usize = 0;
    assert(string_views(warnings@) =~= w0 + sizes_scan(all.subrange(0, 0)).1);
    while i < ls.len()
        invariant
            0 <= i <= ls.len(),
            all == seqs(ls@),
            size_views(entries@) == sizes_scan(all.subrange(0, i as int)).0,
            string_views(warnings@) == w0 + sizes_scan(all.subrange(0, i as int)).1,
        decreases ls.len() - i,
    {
        assert(all.subrange(0, i + 1).drop_last() =~= all.subrange(0, i as int));
        assert(all.subrange(0, i + 1).last() == ls@[i as int]@);
        let ghost wb = sizes_scan(all.subrange(0, i as int)).1;
        let line = trim_vec(&ls[i]);
        if !(line.len() == 0 || line[0] == '#') {
            match split_bar(&line) {
                None => {
                    push_warning(warnings, quoted_message("Skipped malformed sizeslist line '", &line, "'"));
                    assert(w0 + wb.push("Skipped malformed sizeslist line '"@ + line@ + "'"@) =~= (w0
                        + wb).push("Skipped malformed sizeslist line '"@ + line@ + "'"@));
                },
                Some((p, c)) => {
                    let ps = string_of(&p);
                    match normalize_manifest_path(ps.as_str()) {
                        Err(e) => {
                            let mut v = chars_of("Skipped unsafe sizeslist path '");
                            push_all(&mut v, &trim_vec(&p));
                            push_all(&mut v, &chars_of("': "));
                            push_all(&mut v, &chars_of(e.as_str()));
                            let ghost msg = v@;
                            push_warning(warnings, string_of(&v));
                            assert(w0 + wb.push(msg) =~= (w0 + wb).push(msg));
                        },
                        Ok(path) => {
                            let ct = trim_vec(&c);
                            match parse_u64(&ct) {
                                None => {
                                    let mut v = chars_of("Skipped sizeslist path '");
                                    push_all(&mut v, &chars_of(path.as_str()));
                                    push_all(&mut v, &chars_of("' due to invalid size '"));
                                    push_all(&mut v, &ct);
                                    push_all(&mut v, &chars_of("'"));
                                    let ghost msg = v@;
                                    push_warning(warnings, string_of(&v));
                                    assert(w0 + wb.push(msg) =~= (w0 + wb).push(msg));
                                },
                                Some(size) => {
                                    upsert_size(&mut entries, path, size);
                                },
                            }
                        },
                    }
                },
            }
        }
        i = i + 1;
    }
    assert(all.subrange(0, ls@.len() as int) =~= all);
    entries
}

/// The manifest of a repository.
#[derive(Debug, Clone)]
pub struct RemoteManifest {
    pub whitelist: Vec<WhitelistEntry>,
    pub ignorelist: Vec<String>,
    pub oncelist: Vec<String>,
    pub sizes: Vec<SizeEntry>,
    pub blacklist: Vec<String>,
    pub warnings: Vec<String>,
}

/// Everything an update plan is built from, besides the disk.
#[derive(Debug, Clone)]
pub struct PreparedUpdate {
    pub local: LocalConfig,
    pub remote: RemoteConfig,
    pub manifest: RemoteManifest,
    pub module_url: String,
}

/// What is on disk at the path of a whitelist entry: whether something is
/// there, whether it is a folder, and its CRC32 when it was computed.
#[derive(Debug, Clone, Copy)]
pub struct LocalEntryState {
    pub exists: bool,
    pub is_dir: bool,
    pub crc32: Option<u32>,
}

/// What happens to a whitelist entry.
#[derive(Debug, Clone, Copy, PartialEq, Eq, Structural)]
pub enum EntryAction {
    Add,
    Replace,
    Skip,
    SkipFolder,
}

/// The action for a whitelist entry: liveries left out unless wanted,
/// ignored paths skipped, copy-once entries (negative CRC or listed) added
/// only when missing, missing files added, folders skipped with a warning,
/// and files replaced when their CRC32 differs.
pub open spec fn entry_action(
    path: Seq<char>,
    crc: i64,
    include_liveries: bool,
    ignore: Seq<Seq<char>>,
    once: Seq<Seq<char>>,
    st: LocalEntryState,
) -> EntryAction {
    if !include_liveries && livery_path(path) {
        EntryAction::Skip
    } else if ignore.contains(path) {
        EntryAction::Skip
    } else if crc < 0 || once.contains(path) {
        if st.exists {
            EntryAction::Skip
        } else {
            EntryAction::Add
        }
    } else if !st.exists {
        EntryAction::Add
    } else if st.is_dir {
        EntryAction::SkipFolder
    } else if st.crc32 matches Some(c) && c as i64 != crc {
        EntryAction::Replace
    } else {
        EntryAction::Skip
    }
}

/// Whether the CRC32 of the file at a whitelist path is needed.
pub open spec fn entry_needs_crc(
    path: Seq<char>,
    crc: i64,
    include_liveries: bool,
    ignore: Seq<Seq<char>>,
    once: Seq<Seq<char>>,
    exists: bool,
    is_dir: bool,
) -> bool {
    !(!include_liveries && livery_path(path)) && !ignore.contains(path) && !(crc < 0
        || once.contains(path)) && exists && !is_dir
}

/// Whether the app must compute the CRC32 of the file of whitelist entry
/// `entry` to plan the update.
pub fn whitelist_entry_needs_crc(
    prepared: &PreparedUpdate,
    options: &SkunkUpdateOptions,
    entry: &WhitelistEntry,
    exists: bool,
    is_dir: bool,
) -> (r: bool)
    ensures
        r == entry_needs_crc(
            entry.path@,
            entry.crc32,
            options.include_liveries && prepared.local.liveries,
            string_views(prepared.manifest.ignorelist@),
            string_views(prepared.manifest.oncelist@),
            exists,
            is_dir,
        ),
{
    let with_liveries = options.include_liveries && prepared.local.liveries;
    if !with_liveries && is_livery_path(entry.path.as_str()) {
        return false;
    }
    if contains_string(&prepared.manifest.ignorelist, &entry.path) {
        return false;
    }
    if entry.crc32 < 0 || contains_string(&prepared.manifest.oncelist, &entry.path) {
        return false;
    }
    exists && !is_dir
}

/// The plan's lists for the whitelist: added, replaced and skipped paths,
/// and the folder warnings, in whitelist order.
pub open spec fn entries_plan(
    wl: Seq<(Seq<char>, i64)>,
    states: Seq<LocalEntryState>,
    include_liveries: bool,
    ignore: Seq<Seq<char>>,
    once: Seq<Seq<char>>,
) -> (Seq<Seq<char>>, Seq<Seq<char>>, Seq<Seq<char>>, Seq<Seq<char>>)
    decreases wl.len(),
{
    if wl.len() == 0 {
        (Seq::empty(), Seq::empty(), Seq::empty(), Seq::empty())
    } else {
        let p = entries_plan(wl.drop_last(), states, include_liveries, ignore, once);
        let e = wl.last();
        match entry_action(e.0, e.1, include_liveries, ignore, once, states[wl.len() - 1]) {
            EntryAction::Add => (p.0.push(e.0), p.1, p.2, p.3),
            EntryAction::Replace => (p.0, p.1.push(e.0), p.2, p.3),
            EntryAction::Skip => (p.0, p.1, p.2.push(e.0), p.3),
            EntryAction::SkipFolder => (
                p.0,
                p.1,
                p.2.push(e.0),
                p.3.push("Remote entry '"@ + e.0 + "' points to a directory locally; skipping"@),
            ),
        }
    }
}

/// Every whitelist entry lands in exactly one of the add, replace and skip
/// lists of a plan: their lengths add up to the whitelist's, and a path is
/// listed only once per entry.
pub proof fn law_plan_partitions_whitelist(
    wl: Seq<(Seq<char>, i64)>,
    states: Seq<LocalEntryState>,
    include_liveries: bool,
    ignore: Seq<Seq<char>>,
    once: Seq<Seq<char>>,
)
    ensures
        ({
            let p = entries_plan(wl, states, include_liveries, ignore, once);
            p.0.len() + p.1.len() + p.2.len() == wl.len()
        }),
        forall|i: int|
            0 <= i < wl.len() ==> ({
                let a = entry_action(#[trigger] wl[i].0, wl[i].1, include_liveries, ignore, once, states[i]);
                let p = entries_plan(wl, states, include_liveries, ignore, once);
                &&& a == EntryAction::Add ==> p.0.contains(wl[i].0)
                &&& a == EntryAction::Replace ==> p.1.contains(wl[i].0)
                &&& (a == EntryAction::Skip || a == EntryAction::SkipFolder) ==> p.2.contains(
                    wl[i].0,
                )
            }),
    decreases wl.len(),
{
    if wl.len() > 0 {
        let d = wl.drop_last();
        law_plan_partitions_whitelist(d, states, include_liveries, ignore, once);
        let p0 = entries_plan(d, states, include_liveries, ignore, once);
        let p = entries_plan(wl, states, include_liveries, ignore, once);
        assert forall|i: int| 0 <= i < wl.len() implies ({
            let a = entry_action(#[trigger] wl[i].0, wl[i].1, include_liveries, ignore, once, states[i]);
            &&& a == EntryAction::Add ==> p.0.contains(wl[i].0)
            &&& a == EntryAction::Replace ==> p.1.contains(wl[i].0)
            &&& (a == EntryAction::Skip || a == EntryAction::SkipFolder) ==> p.2.contains(wl[i].0)
        }) by {
            if i < wl.len() - 1 {
                assert(d[i] == wl[i]);
                let a = entry_action(wl[i].0, wl[i].1, include_liveries, ignore, once, states[i]);
                if a == EntryAction::Add {
                    let k = choose|k: int| 0 <= k < p0.0.len() && p0.0[k] == wl[i].0;
                    assert(p.0[k] == p0.0[k]);
                }
                if a == EntryAction::Replace {
                    let k = choose|k: int| 0 <= k < p0.1.len() && p0.1[k] == wl[i].0;
                    assert(p.1[k] == p0.1[k]);
                }
                if a == EntryAction::Skip || a == EntryAction::SkipFolder {
                    let k = choose|k: int| 0 <= k < p0.2.len() && p0.2[k] == wl[i].0;
                    assert(p.2[k] == p0.2[k]);
                }
            } else {
                let a = entry_action(wl[i].0, wl[i].1, include_liveries, ignore, once, states[i]);
                if a == EntryAction::Add {
                    assert(p.0[p.0.len() - 1] == wl[i].0);
                }
                if a == EntryAction::Replace {
                    assert(p.1[p.1.len() - 1] == wl[i].0);
                }
                if a == EntryAction::Skip || a == EntryAction::SkipFolder {
                    assert(p.2[p.2.len() - 1] == wl[i].0);
                }
            }
        }
    }
}

/// The paths of the delete list to remove, and the warnings: a path that
/// is also whitelisted is never deleted; liveries only when wanted; only
/// what exists.
pub open spec fn blacklist_plan(
    bl: Seq<Seq<char>>,
    exists: Seq<bool>,
    wl_paths: Seq<Seq<char>>,
    include_liveries: bool,
) -> (Seq<Seq<char>>, Seq<Seq<char>>)
    decreases bl.len(),
{
    if bl.len() == 0 {
        (Seq::empty(), Seq::empty())
    } else {
        let p = blacklist_plan(bl.drop_last(), exists, wl_paths, include_liveries);
        let path = bl.last();
        if wl_paths.contains(path) {
            (p.0, p.1.push("Blacklist entry '"@ + path + "' is also in whitelist; skipped for safety"@))
        } else if !include_liveries && livery_path(path) {
            p
        } else if exists[bl.len() - 1] {
            (p.0.push(path), p.1)
        } else {
            p
        }
    }
}

/// A path that the whitelist lists is never deleted, whatever the delete
/// list says; every deleted path comes from the delete list.
pub proof fn law_blacklist_spares_whitelist(
    bl: Seq<Seq<char>>,
    exists: Seq<bool>,
    wl_paths: Seq<Seq<char>>,
    include_liveries: bool,
)
    ensures
        forall|d: Seq<char>| #[trigger]
            blacklist_plan(bl, exists, wl_paths, include_liveries).0.contains(d) ==> !wl_paths.contains(
                d,
            ) && bl.contains(d),
    decreases bl.len(),
{
    if bl.len() > 0 {
        let d0 = bl.drop_last();
        law_blacklist_spares_whitelist(d0, exists, wl_paths, include_liveries);
        let p0 = blacklist_plan(d0, exists, wl_paths, include_liveries);
        let p = blacklist_plan(bl, exists, wl_paths, include_liveries);
        assert forall|d: Seq<char>| #[trigger] p.0.contains(d) implies !wl_paths.contains(d)
            && bl.contains(d) by {
            let k = choose|k: int| 0 <= k < p.0.len() && p.0[k] == d;
            if k < p0.0.len() {
                assert(p0.0[k] == p.0[k]);
                assert(p0.0.contains(d));
                let j = choose|j: int| 0 <= j < d0.len() && d0[j] == d;
                assert(bl[j] == d0[j]);
            } else {
                assert(bl[bl.len() - 1] == bl.last());
            }
        }
    }
}

/// The size a path is listed with, if any.
pub open spec fn listed_size(sizes: Seq<(Seq<char>, u64)>, path: Seq<char>) -> nat {
    match key_index(sizes, path) {
        Some(i) => sizes[i].1 as nat,
        None => 0,
    }
}

/// The bytes to download: the listed sizes of the paths, added up and
/// saturating at `u64::MAX`.
pub open spec fn download_estimate(paths: Seq<Seq<char>>, sizes: Seq<(Seq<char>, u64)>) -> nat
    decreases paths.len(),
{
    if paths.len() == 0 {
        0
    } else {
        let s = download_estimate(paths.drop_last(), sizes) + listed_size(sizes, paths.last());
        if s > u64::MAX {
            u64::MAX as nat
        } else {
            s
        }
    }
}

pub open spec fn whitelist_paths(wl: Seq<(Seq<char>, i64)>) -> Seq<Seq<char>> {
    wl.map_values(|e: (Seq<char>, i64)| e.0)
}

/// Whether the plan has an update: the remote version differs from the
/// local one (or there is none).
pub open spec fn has_update_spec(local: Option<Seq<char>>, remote: Seq<char>) -> bool {
    match local {
        Some(l) => l != remote,
        None => true,
    }
}

fn size_of_path(sizes: &Vec<SizeEntry>, path: &String) -> (r: u64)
    ensures
        r == listed_size(size_views(sizes@), path@),
{
    let ghost s = size_views(sizes@);
    let mut j = sizes.len();
    assert(s.subrange(0, j as int) =~= s);
    proof {
        lemma_key_index(s, path@);
    }
    while j > 0
        invariant
            j <= sizes.len(),
            s == size_views(sizes@),
            key_index(s, path@) == key_index(s.subrange(0, j as int), path@),
        decreases j,
    {
        assert(s.subrange(0, j as int).drop_last() =~= s.subrange(0, j - 1));
        assert(s.subrange(0, j as int).last() == s[j - 1]);
        if sizes[j - 1].path == *path {
            return sizes[j - 1].size;
        }
        j = j - 1;
    }
    0
}

/// Builds the update plan of an add-on from its prepared configuration,
/// the state on disk of each whitelist entry (`entry_states[i]` for entry
/// `i`, with its CRC32 whenever `whitelist_entry_needs_crc` asks for it)
/// and whether each delete-list path exists.
pub fn build_plan_internal(
    prepared: &PreparedUpdate,
    item_type: &str,
    folder_name: &str,
    options: &SkunkUpdateOptions,
    entry_states: &[LocalEntryState],
    blacklist_exists: &[bool],
) -> (r: SkunkUpdatePlan)
    requires
        entry_states@.len() == prepared.manifest.whitelist@.len(),
        blacklist_exists@.len() == prepared.manifest.blacklist@.len(),
        forall|i: int|
            0 <= i < entry_states@.len() && entry_needs_crc(
                #[trigger] prepared.manifest.whitelist@[i].path@,
                prepared.manifest.whitelist@[i].crc32,
                options.include_liveries && prepared.local.liveries,
                string_views(prepared.manifest.ignorelist@),
                string_views(prepared.manifest.oncelist@),
                entry_states@[i].exists,
                entry_states@[i].is_dir,
            ) ==> entry_states@[i].crc32 is Some,
    ensures
        ({
            let with_liveries = options.include_liveries && prepared.local.liveries;
            let wl = whitelist_views(prepared.manifest.whitelist@);
            let ep = entries_plan(
                wl,
                entry_states@,
                with_liveries,
                string_views(prepared.manifest.ignorelist@),
                string_views(prepared.manifest.oncelist@),
            );
            let bp = if options.apply_blacklist {
                blacklist_plan(
                    string_views(prepared.manifest.blacklist@),
                    blacklist_exists@,
                    whitelist_paths(wl),
                    with_liveries,
                )
            } else {
                (Seq::empty(), Seq::empty())
            };
            &&& string_views(r.add_files@) == ep.0
            &&& string_views(r.replace_files@) == ep.1
            &&& string_views(r.skip_files@) == ep.2
            &&& string_views(r.delete_files@) == bp.0
            &&& string_views(r.warnings@) == string_views(prepared.manifest.warnings@) + ep.3
                + bp.1 + (if prepared.remote.locked {
                seq!["Remote repository is locked"@]
            } else {
                Seq::empty()
            })
            &&& r.estimated_download_bytes == download_estimate(
                ep.0 + ep.1,
                size_views(prepared.manifest.sizes@),
            )
            &&& r.provider@ == "manifest"@
            &&& r.item_type@ == item_type@
            &&& r.folder_name@ == folder_name@
            &&& r.local_version == prepared.local.version
            &&& r.remote_version == Some(prepared.remote.version)
            &&& r.remote_module == Some(prepared.module_url)
            &&& r.remote_locked == prepared.remote.locked
            &&& r.has_update == has_update_spec(
                match prepared.local.version {
                    Some(v) => Some(v@),
                    None => None,
                },
                prepared.remote.version@,
            )
        }),
{
    let with_liveries = options.include_liveries && prepared.local.liveries;
    let m = &prepared.manifest;
    let ghost wl = whitelist_views(m.whitelist@);
    let ghost ig = string_views(m.ignorelist@);
    let ghost on = string_views(m.oncelist@);
    let mut add_files: Vec<String> = Vec::new();
    let mut replace_files: Vec<String> = Vec::new();
    let mut skip_files: Vec<String> = Vec::new();
    let mut dir_warnings: Vec<String> = Vec::new();
    let mut i: usize = 0;
    while i < m.whitelist.len()
        invariant
            0 <= i <= m.whitelist.len(),
            entry_states@.len() == m.whitelist@.len(),
            wl == whitelist_views(m.whitelist@),
            ig == string_views(m.ignorelist@),
            on == string_views(m.oncelist@),
            with_liveries == (options.include_liveries && prepared.local.liveries),
            forall|k: int|
                0 <= k < entry_states@.len() && entry_needs_crc(
                    #[trigger] m.whitelist@[k].path@,
                    m.whitelist@[k].crc32,
                    with_liveries,
                    ig,
                    on,
                    entry_states@[k].exists,
                    entry_states@[k].is_dir,
                ) ==> entry_states@[k].crc32 is Some,
            ({
                let p = entries_plan(wl.subrange(0, i as int), entry_states@, with_liveries, ig, on);
                &&& string_views(add_files@) == p.0
                &&& string_views(replace_files@) == p.1
                &&& string_views(skip_files@) == p.2
                &&& string_views(dir_warnings@) == p.3
            }),
        decreases m.whitelist.len() - i,
    {
        let ghost sub = wl.subrange(0, i + 1);
        assert(sub.drop_last() =~= wl.subrange(0, i as int));
        assert(sub.last() == (m.whitelist@[i as int].path@, m.whitelist@[i as int].crc32));
        let e = &m.whitelist[i];
        let st = entry_states[i];
        let ghost a = string_views(add_files@);
        let ghost rp = string_views(replace_files@);
        let ghost sk = string_views(skip_files@);
        let ghost dw = string_views(dir_warnings@);
        if !with_liveries && is_livery_path(e.path.as_str()) {
            skip_files.push(e.path.clone());
            assert(string_views(skip_files@) =~= sk.push(e.path@));
        } else if contains_string(&m.ignorelist, &e.path) {
            skip_files.push(e.path.clone());
            assert(string_views(skip_files@) =~= sk.push(e.path@));
        } else if e.crc32 < 0 || contains_string(&m.oncelist, &e.path) {
            if st.exists {
                skip_files.push(e.path.clone());
                assert(string_views(skip_files@) =~= sk.push(e.path@));
            } else {
                add_files.push(e.path.clone());
                assert(string_views(add_files@) =~= a.push(e.path@));
            }
        } else if !st.exists {
            add_files.push(e.path.clone());
            assert(string_views(add_files@) =~= a.push(e.path@));
        } else if st.is_dir {
            let w = quoted_message(
                "Remote entry '",
                &chars_of(e.path.as_str()),
                "' points to a directory locally; skipping",
            );
            let ghost wv = w@;
            dir_warnings.push(w);
            assert(string_views(dir_warnings@) =~= dw.push(wv));
            skip_files.push(e.path.clone());
            assert(string_views(skip_files@) =~= sk.push(e.path@));
        } else {
            assert(entry_needs_crc(e.path@, e.crc32, with_liveries, ig, on, st.exists, st.is_dir));
            let local_crc = match st.crc32 {
                Some(c) => c,
                None => 0,
            };
            if local_crc as i64 != e.crc32 {
                replace_files.push(e.path.clone());
                assert(string_views(replace_files@) =~= rp.push(e.path@));
            } else {
                skip_files.push(e.path.clone());
                assert(string_views(skip_files@) =~= sk.push(e.path@));
            }
        }
        i = i + 1;
    }
    assert(wl.subrange(0, m.whitelist@.len() as int) =~= wl);
    proof {
        law_plan_partitions_whitelist(wl, entry_states@, with_liveries, ig, on);
    }
    let ghost bl = string_views(m.blacklist@);
    let mut delete_files: Vec<String> = Vec::new();
    let mut black_warnings: Vec<String> = Vec::new();
    if options.apply_blacklist {
        let mut wl_paths: Vec<String> = Vec::new();
        let mut k: usize = 0;
        while k < m.whitelist.len()
            invariant
                0 <= k <= m.whitelist.len(),
                wl == whitelist_views(m.whitelist@),
                string_views(wl_paths@) == whitelist_paths(wl.subrange(0, k as int)),
            decreases m.whitelist.len() - k,
        {
            let ghost before = string_views(wl_paths@);
            wl_paths.push(m.whitelist[k].path.clone());
            assert(string_views(wl_paths@) =~= before.push(m.whitelist@[k as int].path@));
            assert(whitelist_paths(wl.subrange(0, k + 1)) =~= whitelist_paths(wl.subrange(0, k as int)).push(
                m.whitelist@[k as int].path@,
            ));
            k = k + 1;
        }
        assert(wl.subrange(0, m.whitelist@.len() as int) =~= wl);
        let mut b: usize = 0;
        while b < m.blacklist.len()
            invariant
                0 <= b <= m.blacklist.len(),
                blacklist_exists@.len() == m.blacklist@.len(),
                bl == string_views(m.blacklist@),
                string_views(wl_paths@) == whitelist_paths(wl),
                ({
                    let p = blacklist_plan(bl.subrange(0, b as int), blacklist_exists@, whitelist_paths(wl), with_liveries);
                    &&& string_views(delete_files@) == p.0
                    &&& string_views(black_warnings@) == p.1
                }),
            decreases m.blacklist.len() - b,
        {
            let ghost sub = bl.subrange(0, b + 1);
            assert(sub.drop_last() =~= bl.subrange(0, b as int));
            assert(sub.last() == m.blacklist@[b as int]@);
            let path = &m.blacklist[b];
            let ghost dv = string_views(delete_files@);
            let ghost bw = string_views(black_warnings@);
            if contains_string(&wl_paths, path) {
                let w = quoted_message(
                    "Blacklist entry '",
                    &chars_of(path.as_str()),
                    "' is also in whitelist; skipped for safety",
                );
                let ghost wv = w@;
                black_warnings.push(w);
                assert(string_views(black_warnings@) =~= bw.push(wv));
            } else if !with_liveries && is_livery_path(path.as_str()) {
            } else if blacklist_exists[b] {
                delete_files.push(path.clone());
                assert(string_views(delete_files@) =~= dv.push(path@));
            }
            b = b + 1;
        }
        assert(bl.subrange(0, m.blacklist@.len() as int) =~= bl);
    }
    let mut estimated: u64 = 0;
    let ghost ar = string_views(add_files@) + string_views(replace_files@);
    let total = add_files.len() + replace_files.len();
    let mut q: usize = 0;
    while q < total
        invariant
            0 <= q <= total,
            total == add_files@.len() + replace_files@.len(),
            ar == string_views(add_files@) + string_views(replace_files@),
            estimated as nat == download_estimate(ar.subrange(0, q as int), size_views(m.sizes@)),
        decreases total - q,
    {
        assert(ar.subrange(0, q + 1).drop_last() =~= ar.subrange(0, q as int));
        let p = if q < add_files.len() {
            assert(ar[q as int] == add_files@[q as int]@);
            &add_files[q]
        } else {
            assert(ar[q as int] == replace_files@[q - add_files@.len()]@);
            &replace_files[q - add_files.len()]
        };
        let sz = size_of_path(&m.sizes, p);
        estimated = estimated.saturating_add(sz);
        q = q + 1;
    }
    assert(ar.subrange(0, total as int) =~= ar);
    let mut warnings: Vec<String> = Vec::new();
    let ghost w_all = string_views(m.warnings@) + string_views(dir_warnings@) + string_views(
        black_warnings@,
    );
    let mut wi: usize = 0;
    while wi < m.warnings.len()
        invariant
            0 <= wi <= m.warnings.len(),
            string_views(warnings@) == string_views(m.warnings@).subrange(0, wi as int),
        decreases m.warnings.len() - wi,
    {
        let ghost before = string_views(warnings@);
        warnings.push(m.warnings[wi].clone());
        assert(string_views(warnings@) =~= before.push(m.warnings@[wi as int]@));
        assert(string_views(m.warnings@).subrange(0, wi + 1) =~= string_views(m.warnings@).subrange(
            0,
            wi as int,
        ).push(m.warnings@[wi as int]@));
        wi = wi + 1;
    }
    assert(string_views(m.warnings@).subrange(0, m.warnings@.len() as int) =~= string_views(
        m.warnings@,
    ));
    let ghost w1 = string_views(warnings@);
    append_strings(&mut warnings, &dir_warnings);
    append_strings(&mut warnings, &black_warnings);
    if prepared.remote.locked {
        let ghost before = string_views(warnings@);
        warnings.push(string_of(&chars_of("Remote repository is locked")));
        assert(string_views(warnings@) =~= before.push("Remote repository is locked"@));
    } else {
        assert(string_views(warnings@) =~= string_views(warnings@) + Seq::<Seq<char>>::empty());
    }
    let has_update = match &prepared.local.version {
        Some(v) => !eq_chars(&chars_of(v.as_str()), &chars_of(prepared.remote.version.as_str())),
        None => true,
    };
    SkunkUpdatePlan {
        provider: string_of(&chars_of("manifest")),
        item_type: string_of(&chars_of(item_type)),
        folder_name: string_of(&chars_of(folder_name)),
        local_version: prepared.local.version.clone(),
        remote_version: Some(prepared.remote.version.clone()),
        remote_module: Some(prepared.module_url.clone()),
        remote_locked: prepared.remote.locked,
        has_update,
        estimated_download_bytes: estimated,
        add_files,
        replace_files,
        delete_files,
        skip_files,
        warnings,
    }
}

fn append_strings(out: &mut Vec<String>, src: &Vec<String>)
    ensures
        string_views(final(out)@) == string_views(old(out)@) + string_views(src@),
{
    let mut i: usize = 0;
    while i < src.len()
        invariant
            0 <= i <= src.len(),
            string_views(out@) == string_views(old(out)@) + string_views(src@).subrange(0, i as int),
        decreases src.len() - i,
    {
        let ghost before = string_views(out@);
        out.push(src[i].clone());
        assert(string_views(out@) =~= before.push(src@[i as int]@));
        assert(string_views(src@).subrange(0, i + 1) =~= string_views(src@).subrange(0, i as int).push(
            src@[i as int]@,
        ));
        i = i + 1;
        assert(string_views(out@) =~= string_views(old(out)@) + string_views(src@).subrange(
            0,
            i as int,
        ));
    }
    assert(string_views(src@).subrange(0, src@.len() as int) =~= string_views(src@));
}

/// The index of the first line that sets the version (trimmed and
/// lower-cased, it starts with `version|`).
pub open spec fn version_line_index(ls: Seq<Seq<char>>, k: int) -> Option<int>
    decreases ls.len() - k,
{
    if k < 0 || k >= ls.len() {
        None
    } else if starts_with(lowercase(trim(ls[k])), "version|"@) {
        Some(k)
    } else {
        version_line_index(ls, k + 1)
    }
}

proof fn lemma_version_line_index(ls: Seq<Seq<char>>, k: int)
    requires
        0 <= k,
    ensures
        version_line_index(ls, k) matches Some(i) ==> k <= i < ls.len(),
    decreases ls.len() - k,
{
    if k < ls.len() && !starts_with(lowercase(trim(ls[k])), "version|"@) {
        lemma_version_line_index(ls, k + 1);
    }
}

/// The configuration text with its version set: the first version line
/// replaced by `version|<version>` (trimmed), or such a line appended;
/// lines joined by line feeds.
pub open spec fn cfg_with_version(content: Seq<char>, version: Seq<char>) -> Seq<char> {
    let ls = lines(content);
    let line = "version|"@ + trim(version);
    let updated = match version_line_index(ls, 0) {
        Some(i) => ls.update(i, line),
        None => ls.push(line),
    };
    join(updated, seq!['\n'])
}

/// The index of the first version line, searching from `start`.
fn find_version_line(ls: &Vec<Vec<char>>, start: usize) -> (r: Option<usize>)
    requires
        start <= ls.len(),
    ensures
        match r {
            Some(i) => version_line_index(seqs(ls@), start as int) == Some(i as int),
            None => version_line_index(seqs(ls@), start as int) is None,
        },
    decreases ls.len() - start,
{
    if start == ls.len() {
        return None;
    }
    let ghost all = seqs(ls@);
    assert(all[start as int] == ls@[start as int]@);
    let marker = chars_of("version|");
    let low = to_lowercase_chars(&trim_vec(&ls[start]));
    if starts_with_exec(&low, &marker) {
        Some(start)
    } else {
        find_version_line(ls, start + 1)
    }
}

/// Sets the version in the text of the local configuration.
pub fn update_local_cfg_version_text(content: &str, version: &str) -> (r: String)
    ensures
        r@ == cfg_with_version(content@, version@),
{
    let mut ls = lines_of(&chars_of(content));
    let ghost all = seqs(ls@);
    proof {
        lemma_version_line_index(all, 0);
    }
    let mut line = chars_of("version|");
    push_all(&mut line, &trim_vec(&chars_of(version)));
    let ghost lv = line@;
    match find_version_line(&ls, 0) {
        Some(i) => {
            ls.set(i, line);
            assert(seqs(ls@) =~= all.update(i as int, lv));
        },
        None => {
            ls.push(line);
            assert(seqs(ls@) =~= all.push(lv));
        },
    }
    let mut nl: Vec<char> = Vec::new();
    nl.push('\n');
    assert(nl@ =~= seq!['\n']);
    string_of(&join_all(&ls, &nl))
}

/// Where an item of a given type lives (the folders under the X-Plane
/// root) and its folder name with `\` turned into `/`; errors for an empty
/// name, a name with `..`, and unknown types.
pub open spec fn target_location_spec(item_type: Seq<char>, folder_name: Seq<char>) -> Result<
    (Seq<Seq<char>>, Seq<char>),
    Seq<char>,
> {
    if trim(folder_name).len() == 0 {
        Err("Folder name cannot be empty"@)
    } else if contains(folder_name, ".."@) {
        Err("Folder name contains invalid traversal segment"@)
    } else {
        let folder = replace_all(folder_name, seq!['\\'], seq!['/']);
        if item_type == "aircraft"@ || item_type == "livery"@ {
            Ok((seq!["Aircraft"@], folder))
        } else if item_type == "plugin"@ {
            Ok((seq!["Resources"@, "plugins"@], folder))
        } else if item_type == "scenery"@ {
            Ok((seq!["Custom Scenery"@], folder))
        } else {
            Err("Unsupported item type '"@ + item_type + "'"@)
        }
    }
}

pub fn target_location(item_type: &str, folder_name: &str) -> (r: Result<(Vec<String>, String), String>)
    ensures
        match target_location_spec(item_type@, folder_name@) {
            Ok((base, folder)) => r matches Ok((b, f)) && string_views(b@) == base && f@ == folder,
            Err(e) => r matches Err(m) && m@ == e,
        },
{
    let f = chars_of(folder_name);
    if trim_vec(&f).len() == 0 {
        return Err(string_of(&chars_of("Folder name cannot be empty")));
    }
    if contains_exec(&f, &chars_of("..")) {
        return Err(string_of(&chars_of("Folder name contains invalid traversal segment")));
    }
    let mut bs: Vec<char> = Vec::new();
    bs.push('\\');
    let mut sl: Vec<char> = Vec::new();
    sl.push('/');
    assert(bs@ =~= seq!['\\']);
    assert(sl@ =~= seq!['/']);
    let folder = string_of(&replace_vec(&f, &bs, &sl));
    let t = chars_of(item_type);
    let mut base: Vec<String> = Vec::new();
    if eq_str(&t, "aircraft") || eq_str(&t, "livery") {
        base.push(string_of(&chars_of("Aircraft")));
        assert(string_views(base@) =~= seq!["Aircraft"@]);
    } else if eq_str(&t, "plugin") {
        base.push(string_of(&chars_of("Resources")));
        base.push(string_of(&chars_of("plugins")));
        assert(string_views(base@) =~= seq!["Resources"@, "plugins"@]);
    } else if eq_str(&t, "scenery") {
        base.push(string_of(&chars_of("Custom Scenery")));
        assert(string_views(base@) =~= seq!["Custom Scenery"@]);
    } else {
        return Err(quoted_message("Unsupported item type '", &t, "'"));
    }
    Ok((base, folder))
}

/// The pieces that are not empty, in order.
pub open spec fn nonempty_pieces(xs: Seq<Seq<char>>) -> Seq<Seq<char>>
    decreases xs.len(),
{
    if xs.len() == 0 {
        Seq::empty()
    } else if xs.last().len() > 0 {
        nonempty_pieces(xs.drop_last()).push(xs.last())
    } else {
        nonempty_pieces(xs.drop_last())
    }
}

/// The text of the URL `base` with its path made of the given segments
/// (`Url::path_segments_mut`, `clear`, then each segment pushed,
/// percent-encoded by the url crate): `None` when `base` is no URL,
/// `Some(None)` when it cannot have path segments.
pub uninterp spec fn url_with_path(base: Seq<char>, segments: Seq<Seq<char>>) -> Option<
    Option<Seq<char>>,
>;

/// Calls `url::Url::parse`, then `path_segments_mut`, `clear` and
/// `extend` with the segments, and renders the URL with `to_string`. The
/// contract only names the result.
#[verifier::external_body]
fn url_replace_path(base: &str, segments: &Vec<String>) -> (r: Option<Option<String>>)
    ensures
        match url_with_path(base@, string_views(segments@)) {
            None => r is None,
            Some(None) => r matches Some(None),
            Some(Some(t)) => r matches Some(Some(x)) && x@ == t,
        },
{
    let mut u = match url::Url::parse(base) {
        Ok(u) => u,
        Err(_) => return None,
    };
    if let Ok(mut p) = u.path_segments_mut() {
        p.clear().extend(segments.iter().map(|s| s.as_str()));
    } else {
        return Some(None);
    }
    Some(Some(u.to_string()))
}

/// The URL of a file of the module: the module URL must be HTTP(S); its
/// non-empty path segments are kept and the segments of the normalised
/// file path appended.
pub open spec fn module_file_url(base: Seq<char>, path: Seq<char>) -> Result<Seq<char>, Seq<char>> {
    match module_url_error(base) {
        Some(e) => Err(e),
        None => match parsed_url_path(base) {
            None => Err("Invalid URL '"@ + base + "'"@),
            Some(p) => {
                let existing = match path_segments_of(p) {
                    Some(segs) => nonempty_pieces(segs),
                    None => Seq::empty(),
                };
                match manifest_path(path) {
                    Err(code) => Err(manifest_path_error(path, code)),
                    Ok(n) => match url_with_path(base, existing + split_pieces(n, '/')) {
                        None => Err("Invalid URL '"@ + base + "'"@),
                        Some(None) => Err("URL cannot be used for path segments"@),
                        Some(Some(t)) => Ok(t),
                    },
                }
            },
        },
    }
}

pub fn join_url(base_url: &str, path: &str) -> (r: Result<String, String>)
    ensures
        match module_file_url(base_url@, path@) {
            Ok(u) => r matches Ok(x) && x@ == u,
            Err(e) => r matches Err(x) && x@ == e,
        },
{
    match ensure_http_or_https(base_url) {
        Ok(()) => {},
        Err(e) => {
            return Err(e);
        },
    }
    let invalid = {
        let mut v = chars_of("Invalid URL '");
        push_all(&mut v, &chars_of(base_url));
        push_all(&mut v, &chars_of("'"));
        string_of(&v)
    };
    let p = match url_path(base_url) {
        None => {
            return Err(invalid);
        },
        Some(p) => p,
    };
    let mut segments: Vec<String> = Vec::new();
    match path_segments_vec(&chars_of(p.as_str())) {
        Some(segs) => {
            let ghost sv = seqs(segs@);
            let mut i: usize = 0;
            while i < segs.len()
                invariant
                    0 <= i <= segs.len(),
                    sv == seqs(segs@),
                    string_views(segments@) == nonempty_pieces(sv.subrange(0, i as int)),
                decreases segs.len() - i,
            {
                assert(sv.subrange(0, i + 1).drop_last() =~= sv.subrange(0, i as int));
                assert(sv.subrange(0, i + 1).last() == segs@[i as int]@);
                if segs[i].len() > 0 {
                    let ghost b = string_views(segments@);
                    segments.push(string_of(&segs[i]));
                    assert(string_views(segments@) =~= b.push(segs@[i as int]@));
                }
                i = i + 1;
            }
            assert(sv.subrange(0, segs@.len() as int) =~= sv);
        },
        None => {
            assert(string_views(segments@) =~= Seq::<Seq<char>>::empty());
        },
    }
    let normalized = match normalize_manifest_path(path) {
        Ok(n) => n,
        Err(e) => {
            return Err(e);
        },
    };
    let ghost existing = string_views(segments@);
    let parts = split_char(&chars_of(normalized.as_str()), '/');
    let ghost pv = seqs(parts@);
    let mut k: usize = 0;
    while k < parts.len()
        invariant
            0 <= k <= parts.len(),
            pv == seqs(parts@),
            string_views(segments@) == existing + pv.subrange(0, k as int),
        decreases parts.len() - k,
    {
        let ghost b = string_views(segments@);
        segments.push(string_of(&parts[k]));
        assert(string_views(segments@) =~= b.push(parts@[k as int]@));
        assert(pv.subrange(0, k + 1) =~= pv.subrange(0, k as int).push(parts@[k as int]@));
        k = k + 1;
    }
    assert(pv.subrange(0, parts@.len() as int) =~= pv);
    match url_replace_path(base_url, &segments) {
        None => Err(invalid),
        Some(None) => Err(string_of(&chars_of("URL cannot be used for path segments"))),
        Some(Some(t)) => Ok(t),
    }
}

/// The size the sizes list gives a path, if any.
pub open spec fn listed_size_of(sizes: Seq<(Seq<char>, u64)>, path: Seq<char>) -> Option<u64> {
    match key_index(sizes, path) {
        Some(i) => Some(sizes[i].1),
        None => None,
    }
}

/// The CRC32 the whitelist gives a path, if any.
pub open spec fn listed_crc_of(wl: Seq<(Seq<char>, i64)>, path: Seq<char>) -> Option<i64> {
    match key_index(wl, path) {
        Some(i) => Some(wl[i].1),
        None => None,
    }
}

/// Whether a downloaded file checks out: its size must be the listed size
/// (when listed), and its CRC32 the whitelisted one (when listed and not
/// negative).
pub open spec fn download_check(
    sizes: Seq<(Seq<char>, u64)>,
    wl: Seq<(Seq<char>, i64)>,
    rel: Seq<char>,
    data: Seq<u8>,
) -> Result<(), Seq<char>> {
    match listed_size_of(sizes, rel) {
        Some(e) if data.len() != e => Err(
            "Size mismatch for '"@ + rel + "': expected "@ + dec(e as nat) + ", got "@ + dec(
                data.len(),
            ),
        ),
        _ => match listed_crc_of(wl, rel) {
            Some(c) if c >= 0 && crc32_of(data) as i64 != c => Err(
                "CRC mismatch for '"@ + rel + "': expected "@ + dec(c as nat) + ", got "@ + dec(
                    crc32_of(data) as nat,
                ),
            ),
            _ => Ok(()),
        },
    }
}

fn lookup_size(sizes: &Vec<SizeEntry>, path: &[char]) -> (r: Option<u64>)
    ensures
        r == listed_size_of(size_views(sizes@), path@),
{
    let ghost s = size_views(sizes@);
    let mut j = sizes.len();
    assert(s.subrange(0, j as int) =~= s);
    while j > 0
        invariant
            j <= sizes.len(),
            s == size_views(sizes@),
            key_index(s, path@) == key_index(s.subrange(0, j as int), path@),
        decreases j,
    {
        assert(s.subrange(0, j as int).drop_last() =~= s.subrange(0, j - 1));
        assert(s.subrange(0, j as int).last() == s[j - 1]);
        if eq_chars(&chars_of(sizes[j - 1].path.as_str()), path) {
            return Some(sizes[j - 1].size);
        }
        j = j - 1;
    }
    None
}

fn lookup_crc(wl: &Vec<WhitelistEntry>, path: &[char]) -> (r: Option<i64>)
    ensures
        r == listed_crc_of(whitelist_views(wl@), path@),
{
    let ghost s = whitelist_views(wl@);
    let mut j = wl.len();
    assert(s.subrange(0, j as int) =~= s);
    while j > 0
        invariant
            j <= wl.len(),
            s == whitelist_views(wl@),
            key_index(s, path@) == key_index(s.subrange(0, j as int), path@),
        decreases j,
    {
        assert(s.subrange(0, j as int).drop_last() =~= s.subrange(0, j - 1));
        assert(s.subrange(0, j as int).last() == s[j - 1]);
        if eq_chars(&chars_of(wl[j - 1].path.as_str()), path) {
            return Some(wl[j - 1].crc32);
        }
        j = j - 1;
    }
    None
}

/// Checks a downloaded file against the manifest.
pub fn check_downloaded_file(manifest: &RemoteManifest, rel_path: &str, data: &[u8]) -> (r: Result<
    (),
    String,
>)
    ensures
        match download_check(
            size_views(manifest.sizes@),
            whitelist_views(manifest.whitelist@),
            rel_path@,
            data@,
        ) {
            Ok(()) => r is Ok,
            Err(e) => r matches Err(x) && x@ == e,
        },
{
    let rel = chars_of(rel_path);
    let n = data.len();
    assert(n == data@.len());
    match lookup_size(&manifest.sizes, &rel) {
        Some(e) => {
            if n as u64 != e {
                let mut m = chars_of("Size mismatch for '");
                push_all(&mut m, &rel);
                push_all(&mut m, &chars_of("': expected "));
                push_all(&mut m, &crate::num::dec_vec(e));
                push_all(&mut m, &chars_of(", got "));
                push_all(&mut m, &crate::num::dec_vec(n as u64));
                return Err(string_of(&m));
            }
        },
        None => {},
    }
    match lookup_crc(&manifest.whitelist, &rel) {
        Some(c) => {
            if c >= 0 {
                let actual = crc32_hash(data);
                if actual as i64 != c {
                    let mut m = chars_of("CRC mismatch for '");
                    push_all(&mut m, &rel);
                    push_all(&mut m, &chars_of("': expected "));
                    push_all(&mut m, &crate::num::dec_vec(c as u64));
                    push_all(&mut m, &chars_of(", got "));
                    push_all(&mut m, &crate::num::dec_vec(actual as u64));
                    return Err(string_of(&m));
                }
            }
        },
        None => {},
    }
    Ok(())
}

/// How a manifest install starts: refused for a locked repository,
/// finished at once when there is nothing to change, or carried on.
#[derive(Debug)]
pub enum SkunkInstallStart {
    Locked(String),
    NothingToDo(SkunkUpdateResult),
    Proceed,
}

pub fn skunk_install_start(
    plan: &SkunkUpdatePlan,
    item_type: &str,
    folder_name: &str,
    local_version: &Option<String>,
) -> (r: SkunkInstallStart)
    ensures
        plan.remote_locked ==> (r matches SkunkInstallStart::Locked(e) && e@
            == "Remote repository is locked and cannot be updated currently"@),
        !plan.remote_locked && plan.add_files@.len() == 0 && plan.replace_files@.len() == 0
            && plan.delete_files@.len() == 0 ==> (r matches SkunkInstallStart::NothingToDo(res) && {
            &&& res.provider@ == "manifest"@
            &&& res.success
            &&& res.message@ == "No file changes required"@
            &&& res.item_type@ == item_type@
            &&& res.folder_name@ == folder_name@
            &&& opt_str_view(res.local_version) == opt_str_view(*local_version)
            &&& opt_str_view(res.remote_version) == opt_str_view(plan.remote_version)
            &&& res.updated_files == 0
            &&& res.deleted_files == 0
            &&& res.skipped_files == plan.skip_files@.len()
            &&& !res.rollback_used
        }),
        !plan.remote_locked && !(plan.add_files@.len() == 0 && plan.replace_files@.len() == 0
            && plan.delete_files@.len() == 0) ==> r matches SkunkInstallStart::Proceed,
{
    if plan.remote_locked {
        return SkunkInstallStart::Locked(
            string_of(&chars_of("Remote repository is locked and cannot be updated currently")),
        );
    }
    if plan.add_files.len() == 0 && plan.replace_files.len() == 0 && plan.delete_files.len() == 0 {
        return SkunkInstallStart::NothingToDo(
            SkunkUpdateResult {
                provider: string_of(&chars_of("manifest")),
                success: true,
                message: string_of(&chars_of("No file changes required")),
                item_type: string_of(&chars_of(item_type)),
                folder_name: string_of(&chars_of(folder_name)),
                local_version: copy_opt(local_version),
                remote_version: copy_opt(&plan.remote_version),
                updated_files: 0,
                deleted_files: 0,
                skipped_files: plan.skip_files.len(),
                rollback_used: false,
            },
        );
    }
    SkunkInstallStart::Proceed
}

pub open spec fn opt_str_view(o: Option<String>) -> Option<Seq<char>> {
    match o {
        Some(s) => Some(s@),
        None => None,
    }
}

fn copy_opt(o: &Option<String>) -> (r: Option<String>)
    ensures
        opt_str_view(r) == opt_str_view(*o),
{
    match o {
        Some(s) => Some(s.clone()),
        None => None,
    }
}

/// How many files are downloaded at once: as asked (4 by default), kept
/// between 1 and 8.
pub fn skunk_parallel_downloads(options: &SkunkUpdateOptions) -> (r: usize)
    ensures
        r == (match options.parallel_downloads {
            Some(n) => if n < 1 {
                1
            } else if n > 8 {
                8
            } else {
                n
            },
            None => 4,
        }),
{
    match options.parallel_downloads {
        Some(n) => if n < 1 {
            1
        } else if n > 8 {
            8
        } else {
            n
        },
        None => 4,
    }
}

/// One step of applying a manifest update to the disk.
#[derive(Debug)]
pub enum SkunkApplyStep {
    Write(String),
    Delete(String),
}

/// The steps as plain values: whether the step writes, and its path.
pub open spec fn apply_step_views(v: Seq<SkunkApplyStep>) -> Seq<(bool, Seq<char>)> {
    v.map_values(
        |s: SkunkApplyStep|
            match s {
                SkunkApplyStep::Write(p) => (true, p@),
                SkunkApplyStep::Delete(p) => (false, p@),
            },
    )
}

pub open spec fn tagged(paths: Seq<Seq<char>>, write: bool) -> Seq<(bool, Seq<char>)> {
    paths.map_values(|p: Seq<char>| (write, p))
}

fn push_steps(out: &mut Vec<SkunkApplyStep>, paths: &Vec<String>, write: bool)
    ensures
        apply_step_views(final(out)@) == apply_step_views(old(out)@) + tagged(
            string_views(paths@),
            write,
        ),
{
    let ghost start = apply_step_views(out@);
    let ghost ps = string_views(paths@);
    let mut i: usize = 0;
    while i < paths.len()
        invariant
            0 <= i <= paths.len(),
            ps == string_views(paths@),
            apply_step_views(out@) == start + tagged(ps.subrange(0, i as int), write),
        decreases paths.len() - i,
    {
        let ghost b = apply_step_views(out@);
        let p = paths[i].clone();
        if write {
            out.push(SkunkApplyStep::Write(p));
        } else {
            out.push(SkunkApplyStep::Delete(p));
        }
        assert(apply_step_views(out@) =~= b.push((write, paths@[i as int]@)));
        assert(tagged(ps.subrange(0, i + 1), write) =~= tagged(ps.subrange(0, i as int), write).push(
            (write, ps[i as int]),
        ));
        i = i + 1;
    }
    assert(ps.subrange(0, paths@.len() as int) =~= ps);
}

/// The files to download: the added ones, then the replaced ones.
pub fn skunk_download_targets(plan: &SkunkUpdatePlan) -> (r: Vec<String>)
    ensures
        string_views(r@) == string_views(plan.add_files@) + string_views(plan.replace_files@),
{
    let mut out: Vec<String> = Vec::new();
    let mut i: usize = 0;
    while i < plan.add_files.len()
        invariant
            0 <= i <= plan.add_files.len(),
            string_views(out@) == string_views(plan.add_files@).subrange(0, i as int),
        decreases plan.add_files.len() - i,
    {
        let ghost b = string_views(out@);
        out.push(plan.add_files[i].clone());
        assert(string_views(out@) =~= b.push(plan.add_files@[i as int]@));
        assert(string_views(plan.add_files@).subrange(0, i + 1) =~= string_views(plan.add_files@).subrange(0, i as int).push(plan.add_files@[i as int]@));
        i = i + 1;
    }
    assert(string_views(plan.add_files@).subrange(0, plan.add_files@.len() as int) =~= string_views(plan.add_files@));
    let ghost a = string_views(out@);
    let mut k: usize = 0;
    while k < plan.replace_files.len()
        invariant
            0 <= k <= plan.replace_files.len(),
            string_views(out@) == a + string_views(plan.replace_files@).subrange(0, k as int),
        decreases plan.replace_files.len() - k,
    {
        let ghost b = string_views(out@);
        out.push(plan.replace_files[k].clone());
        assert(string_views(out@) =~= b.push(plan.replace_files@[k as int]@));
        assert(string_views(plan.replace_files@).subrange(0, k + 1) =~= string_views(plan.replace_files@).subrange(0, k as int).push(plan.replace_files@[k as int]@));
        k = k + 1;
    }
    assert(string_views(plan.replace_files@).subrange(0, plan.replace_files@.len() as int) =~= string_views(plan.replace_files@));
    out
}

/// The order in which a plan is applied: replaced files are written,
/// then added files, then the delete list is removed.
pub fn skunk_apply_steps(plan: &SkunkUpdatePlan) -> (r: Vec<SkunkApplyStep>)
    ensures
        apply_step_views(r@) == tagged(string_views(plan.replace_files@), true) + tagged(
            string_views(plan.add_files@),
            true,
        ) + tagged(string_views(plan.delete_files@), false),
{
    let mut out: Vec<SkunkApplyStep> = Vec::new();
    assert(apply_step_views(out@) =~= Seq::<(bool, Seq<char>)>::empty());
    push_steps(&mut out, &plan.replace_files, true);
    push_steps(&mut out, &plan.add_files, true);
    push_steps(&mut out, &plan.delete_files, false);
    assert(apply_step_views(out@) =~= tagged(string_views(plan.replace_files@), true) + tagged(
        string_views(plan.add_files@),
        true,
    ) + tagged(string_views(plan.delete_files@), false));
    out
}

/// The result of a completed manifest install: added and replaced files
/// count as updated, the delete list as deleted.
pub fn skunk_update_result(
    plan: &SkunkUpdatePlan,
    item_type: &str,
    folder_name: &str,
    local_version: &Option<String>,
) -> (r: SkunkUpdateResult)
    requires
        plan.add_files@.len() + plan.replace_files@.len() <= usize::MAX,
    ensures
        r.provider@ == "manifest"@,
        r.success,
        r.message@ == "Update completed successfully"@,
        r.item_type@ == item_type@,
        r.folder_name@ == folder_name@,
        opt_str_view(r.local_version) == opt_str_view(*local_version),
        opt_str_view(r.remote_version) == opt_str_view(plan.remote_version),
        r.updated_files == plan.add_files@.len() + plan.replace_files@.len(),
        r.deleted_files == plan.delete_files@.len(),
        r.skipped_files == plan.skip_files@.len(),
        !r.rollback_used,
{
    SkunkUpdateResult {
        provider: string_of(&chars_of("manifest")),
        success: true,
        message: string_of(&chars_of("Update completed successfully")),
        item_type: string_of(&chars_of(item_type)),
        folder_name: string_of(&chars_of(folder_name)),
        local_version: copy_opt(local_version),
        remote_version: copy_opt(&plan.remote_version),
        updated_files: plan.add_files.len() + plan.replace_files.len(),
        deleted_files: plan.delete_files.len(),
        skipped_files: plan.skip_files.len(),
        rollback_used: false,
    }
}

} // verus!
