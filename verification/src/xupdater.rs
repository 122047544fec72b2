//! X-Updater profiles: the configuration files that hold the update server
//! and the credentials of an add-on, and the tagged update URLs.

use vstd::prelude::*;
use crate::num::{all_digits, is_digit, parse_i64, parse_i64_spec};
use crate::text::{
    chars_of, copy_chars, dedup_keep_first, join, join_all, lines, lines_of, eq_chars, ends_with, find, find_exec,
    lemma_find_after, lemma_split_by_nonempty, lowercase, occurs_at, push_all, replace_all,
    replace_vec, seqs, slice_vec, split_by, starts_with, starts_with_exec, string_of,
    to_lowercase_chars, trim, trim_char, trim_char_vec, trim_end_char, trim_end_char_vec,
    trim_start_char, trim_start_char_vec, trim_vec,
};

verus! {

/// The prefix that marks an update URL as served by X-Updater.
pub const XUPDATER_URL_PREFIX: &'static str = "x-updater:";

/// The server used when a profile names none.
pub open spec fn default_host() -> Seq<char> {
    "https://update.x-plane.org"@
}

/// The configuration file names that native X-Updater installs use.
pub open spec fn profile_cfg_files() -> Seq<&'static str> {
    seq![
        "x-updater.cnf",
        "x_updater.cnf",
        "xupdater.cnf",
        "x-updater.cfg",
        "x_updater.cfg",
        "xupdater.cfg",
        ".x-updater.cfg",
        ".x_updater.cfg",
        "x-updater.conf",
        "x_updater.conf",
        "x-jet-updater.cfg",
        "xjetupdater.cfg",
    ]
}

/// The JSON profile names still read for older installs.
pub open spec fn profile_json_files() -> Seq<&'static str> {
    seq![
        "x-updater.json",
        "x_updater.json",
        "xupdater.json",
        ".x-updater.json",
        ".x_updater.json",
        "x-updater-profile.json",
        "x_updater_profile.json",
        "xupdater_profile.json",
    ]
}

pub fn profile_cfg_file_names() -> (r: [&'static str; 12])
    ensures
        r@ == profile_cfg_files(),
{
    [
        "x-updater.cnf",
        "x_updater.cnf",
        "xupdater.cnf",
        "x-updater.cfg",
        "x_updater.cfg",
        "xupdater.cfg",
        ".x-updater.cfg",
        ".x_updater.cfg",
        "x-updater.conf",
        "x_updater.conf",
        "x-jet-updater.cfg",
        "xjetupdater.cfg",
    ]
}

pub fn profile_json_file_names() -> (r: [&'static str; 8])
    ensures
        r@ == profile_json_files(),
{
    [
        "x-updater.json",
        "x_updater.json",
        "xupdater.json",
        ".x-updater.json",
        ".x_updater.json",
        "x-updater-profile.json",
        "x_updater_profile.json",
        "xupdater_profile.json",
    ]
}

/// `name` is one of the texts of `list`.
pub open spec fn one_of(name: Seq<char>, list: Seq<&'static str>) -> bool {
    exists|i: int| 0 <= i < list.len() && (#[trigger] list[i])@ == name
}

pub fn is_one_of(name: &[char], list: &[&'static str]) -> (r: bool)
    ensures
        r == one_of(name@, list@),
{
    let mut i: usize = 0;
    while i < list.len()
        invariant
            0 <= i <= list.len(),
            forall|j: int| 0 <= j < i ==> (#[trigger] list@[j])@ != name@,
        decreases list.len() - i,
    {
        let item = chars_of(list[i]);
        if eq_chars(&item, name) {
            return true;
        }
        i = i + 1;
    }
    false
}

/// An X-Updater profile: the server, the credentials, the installed
/// package version and the paths that updates leave alone.
#[derive(Debug, Clone)]
pub struct XUpdaterProfile {
    pub host: String,
    pub login: Option<String>,
    pub license_key: Option<String>,
    pub package_version: Option<i64>,
    pub version_label: Option<String>,
    pub ignore_list: Vec<String>,
}

impl XUpdaterProfile {
    pub fn has_credentials(&self) -> (r: bool)
        ensures
            r == (self.login is Some && self.license_key is Some),
    {
        self.login.is_some() && self.license_key.is_some()
    }
}

/// A file name (compared after Unicode lower-casing) of a profile.
pub open spec fn profile_file_name(file_name: Seq<char>) -> bool {
    one_of(lowercase(file_name), profile_cfg_files()) || one_of(
        lowercase(file_name),
        profile_json_files(),
    )
}

pub fn is_profile_file_name(file_name: &str) -> (r: bool)
    ensures
        r == profile_file_name(file_name@),
{
    let name = to_lowercase_chars(&chars_of(file_name));
    let cfg = profile_cfg_file_names();
    let json = profile_json_file_names();
    is_one_of(&name, &cfg) || is_one_of(&name, &json)
}

/// What `url::Url::parse` gives for a text: when it parses, the URL's
/// scheme and its serialisation with the fragment removed.
pub uninterp spec fn parsed_url_without_fragment(s: Seq<char>) -> Option<(Seq<char>, Seq<char>)>;

/// Parses `s` with `url::Url::parse`; on success, drops the fragment
/// (`set_fragment(None)`) and gives the scheme and the serialisation
/// (`as_str`). Both are what the crate computes from `s` alone.
#[verifier::external_body]
pub(crate) fn parse_url_without_fragment(s: &str) -> (r: Option<(String, String)>)
    ensures
        match parsed_url_without_fragment(s@) {
            Some((scheme, text)) => r matches Some((a, b)) && a@ == scheme && b@ == text,
            None => r is None,
        },
{
    match url::Url::parse(s) {
        Ok(mut url) => {
            url.set_fragment(None);
            Some((url.scheme().to_string(), url.as_str().to_string()))
        },
        Err(_) => None,
    }
}

/// The server address of a profile: trimmed, the default when empty,
/// `https://` put in front when it names no HTTP scheme, then parsed as a
/// URL; an HTTP(S) URL gives its text without fragment and without
/// trailing `/`, anything else the default.
pub open spec fn normalized_host(raw: Option<Seq<char>>) -> Seq<char> {
    let t = trim(
        match raw {
            Some(r) => r,
            None => default_host(),
        },
    );
    let h = if t.len() == 0 {
        default_host()
    } else {
        t
    };
    let h2 = if !starts_with(h, "http://"@) && !starts_with(h, "https://"@) {
        "https://"@ + h
    } else {
        h
    };
    match parsed_url_without_fragment(h2) {
        Some((scheme, text)) => if scheme == "http"@ || scheme == "https"@ {
            trim_end_char(text, '/')
        } else {
            default_host()
        },
        None => default_host(),
    }
}

pub fn normalize_host(raw: Option<&str>) -> (r: String)
    ensures
        r@ == normalized_host(
            match raw {
                Some(s) => Some(s@),
                None => None,
            },
        ),
{
    let base = match raw {
        Some(s) => chars_of(s),
        None => chars_of("https://update.x-plane.org"),
    };
    let t = trim_vec(&base);
    let h = if t.len() == 0 {
        chars_of("https://update.x-plane.org")
    } else {
        t
    };
    let h2 = if !starts_with_exec(&h, &chars_of("http://")) && !starts_with_exec(
        &h,
        &chars_of("https://"),
    ) {
        let mut v = chars_of("https://");
        push_all(&mut v, &h);
        v
    } else {
        h
    };
    let text = string_of(&h2);
    match parse_url_without_fragment(text.as_str()) {
        Some((scheme, serialized)) => {
            let sc = chars_of(scheme.as_str());
            if eq_chars(&sc, &chars_of("http")) || eq_chars(&sc, &chars_of("https")) {
                string_of(&trim_end_char_vec(&chars_of(serialized.as_str()), '/'))
            } else {
                string_of(&chars_of("https://update.x-plane.org"))
            }
        },
        None => string_of(&chars_of("https://update.x-plane.org")),
    }
}

/// The update URL that marks a host as served by X-Updater.
pub fn tag_host_as_update_url(host: &str) -> (r: String)
    ensures
        r@ == "x-updater:"@ + normalized_host(Some(host@)),
{
    let mut v = chars_of(XUPDATER_URL_PREFIX);
    push_all(&mut v, &chars_of(normalize_host(Some(host)).as_str()));
    string_of(&v)
}

/// The host of a tagged update URL: `None` when the URL (lower-cased) does
/// not start with the prefix; the default host when nothing follows it;
/// else the normalised host of the trimmed rest.
pub open spec fn tagged_host(update_url: Seq<char>) -> Option<Seq<char>> {
    if !starts_with(lowercase(update_url), lowercase("x-updater:"@)) || update_url.len() < 10 {
        None
    } else {
        let host = trim(update_url.subrange(10, update_url.len() as int));
        if host.len() == 0 {
            Some(default_host())
        } else {
            Some(normalized_host(Some(host)))
        }
    }
}

pub fn parse_tagged_update_url(update_url: &str) -> (r: Option<String>)
    ensures
        match tagged_host(update_url@) {
            Some(h) => r matches Some(s) && s@ == h,
            None => r is None,
        },
{
    proof {
        reveal_strlit("x-updater:");
    }
    let url = chars_of(update_url);
    let lowered = to_lowercase_chars(&url);
    let prefix = to_lowercase_chars(&chars_of(XUPDATER_URL_PREFIX));
    if !starts_with_exec(&lowered, &prefix) || url.len() < 10 {
        return None;
    }
    let rest = slice_vec(&url, 10, url.len());
    let host = trim_vec(&rest);
    if host.len() == 0 {
        return Some(string_of(&chars_of("https://update.x-plane.org")));
    }
    let hs = string_of(&host);
    Some(normalize_host(Some(hs.as_str())))
}

/// A value as written into a `=` separated file: `\`, `:` and `=` escaped
/// by a backslash; with another separator the value as it is.
pub open spec fn encoded_cfg_value(value: Seq<char>, sep: char) -> Seq<char>
    decreases value.len(),
{
    if sep != '=' || value.len() == 0 {
        value
    } else {
        let prev = encoded_cfg_value(value.drop_last(), sep);
        let c = value.last();
        if c == '\\' || c == ':' || c == '=' {
            prev + seq!['\\', c]
        } else {
            prev.push(c)
        }
    }
}

pub fn encode_cfg_value(value: &str, sep: char) -> (r: String)
    ensures
        r@ == encoded_cfg_value(value@, sep),
{
    let v = chars_of(value);
    if sep != '=' {
        return string_of(&v);
    }
    let mut out: Vec<char> = Vec::new();
    let mut i: usize = 0;
    while i < v.len()
        invariant
            0 <= i <= v.len(),
            sep == '=',
            out@ == encoded_cfg_value(v@.subrange(0, i as int), sep),
        decreases v.len() - i,
    {
        assert(v@.subrange(0, i + 1).drop_last() =~= v@.subrange(0, i as int));
        let c = v[i];
        if c == '\\' || c == ':' || c == '=' {
            out.push('\\');
            out.push(c);
        } else {
            out.push(c);
        }
        i = i + 1;
        assert(out@ =~= encoded_cfg_value(v@.subrange(0, i as int), sep));
    }
    assert(v@.subrange(0, v@.len() as int) =~= v@);
    string_of(&out)
}

/// A configuration line split at its first `|`, or else at its first `=`:
/// key, value and the separator.
pub open spec fn cfg_line_parts(line: Seq<char>) -> Option<(Seq<char>, Seq<char>, char)> {
    match find(line, seq!['|']) {
        Some(i) => Some((line.subrange(0, i), line.subrange(i + 1, line.len() as int), '|')),
        None => match find(line, seq!['=']) {
            Some(i) => Some((line.subrange(0, i), line.subrange(i + 1, line.len() as int), '=')),
            None => None,
        },
    }
}

pub fn split_cfg_line(line: &[char]) -> (r: Option<(Vec<char>, Vec<char>, char)>)
    ensures
        match cfg_line_parts(line@) {
            Some((k, v, c)) => r matches Some((a, b, d)) && a@ == k && b@ == v && d == c,
            None => r is None,
        },
{
    let mut bar: Vec<char> = Vec::new();
    bar.push('|');
    let mut eq: Vec<char> = Vec::new();
    eq.push('=');
    assert(bar@ =~= seq!['|']);
    assert(eq@ =~= seq!['=']);
    proof {
        lemma_find_after(line@, seq!['|'], 0);
        lemma_find_after(line@, seq!['='], 0);
    }
    let n = line.len();
    assert(n == line@.len());
    match find_exec(line, &bar) {
        Some(i) => {
            assert(occurs_at(line@, bar@, i as int));
            let k = slice_vec(line, 0, i);
            let v = slice_vec(line, i + 1, line.len());
            Some((k, v, '|'))
        },
        None => match find_exec(line, &eq) {
            Some(i) => {
                assert(occurs_at(line@, eq@, i as int));
                let k = slice_vec(line, 0, i);
                let v = slice_vec(line, i + 1, line.len());
                Some((k, v, '='))
            },
            None => None,
        },
    }
}

/// A text with its backslash escapes resolved: `\n`, `\r` and `\t` give
/// the control characters, `\x` gives `x`, a final lone `\` stays.
pub open spec fn unescaped(s: Seq<char>) -> Seq<char>
    decreases s.len(),
{
    if s.len() == 0 {
        s
    } else if s[0] == '\\' {
        if s.len() == 1 {
            seq!['\\']
        } else {
            let c = s[1];
            let m = if c == 'n' {
                '\n'
            } else if c == 'r' {
                '\r'
            } else if c == 't' {
                '\t'
            } else {
                c
            };
            seq![m] + unescaped(s.subrange(2, s.len() as int))
        }
    } else {
        seq![s[0]] + unescaped(s.drop_first())
    }
}

/// A configuration value: trimmed, stripped of surrounding `"` and `'`,
/// trimmed again, unescaped and trimmed.
pub open spec fn cfg_value(raw: Seq<char>) -> Seq<char> {
    let t = trim(trim_char(trim_char(trim(raw), '"'), '\''));
    if t.len() == 0 {
        Seq::empty()
    } else {
        trim(unescaped(t))
    }
}

pub fn parse_cfg_value(raw: &[char]) -> (r: Vec<char>)
    ensures
        r@ == cfg_value(raw@),
{
    let a = trim_vec(raw);
    let b = trim_char_vec(&a, '"');
    let c = trim_char_vec(&b, '\'');
    let t = trim_vec(&c);
    if t.len() == 0 {
        return Vec::new();
    }
    let mut out: Vec<char> = Vec::new();
    let mut i: usize = 0;
    assert(t@.subrange(0, t@.len() as int) =~= t@);
    assert(out@ + unescaped(t@.subrange(0, t@.len() as int)) =~= unescaped(t@));
    while i < t.len()
        invariant
            0 <= i <= t.len(),
            out@ + unescaped(t@.subrange(i as int, t@.len() as int)) == unescaped(t@),
        decreases t.len() - i,
    {
        let ghost rest = t@.subrange(i as int, t@.len() as int);
        if t[i] == '\\' {
            if i + 1 < t.len() {
                let c = t[i + 1];
                let m = if c == 'n' {
                    '\n'
                } else if c == 'r' {
                    '\r'
                } else if c == 't' {
                    '\t'
                } else {
                    c
                };
                assert(rest.subrange(2, rest.len() as int) =~= t@.subrange(i + 2, t@.len() as int));
                out.push(m);
                i = i + 2;
            } else {
                out.push('\\');
                i = i + 1;
                assert(t@.subrange(i as int, t@.len() as int) =~= Seq::<char>::empty());
            }
        } else {
            assert(rest.drop_first() =~= t@.subrange(i + 1, t@.len() as int));
            out.push(t[i]);
            i = i + 1;
        }
        assert(out@ + unescaped(t@.subrange(i as int, t@.len() as int)) =~= unescaped(t@));
    }
    assert(t@.subrange(i as int, t@.len() as int) =~= Seq::<char>::empty());
    assert(out@ + Seq::<char>::empty() =~= out@);
    trim_vec(&out)
}

/// A text without its leading `./` pieces.
pub open spec fn strip_dot_slash(s: Seq<char>) -> Seq<char>
    decreases s.len(),
{
    if s.len() >= 2 && s[0] == '.' && s[1] == '/' {
        strip_dot_slash(s.subrange(2, s.len() as int))
    } else {
        s
    }
}

/// An ignore entry as a relative path: trimmed, `\` turned into `/`,
/// leading `./` and `/` removed, trimmed again.
pub open spec fn ignore_path(raw: Seq<char>) -> Seq<char> {
    trim(trim_start_char(strip_dot_slash(replace_all(trim(raw), seq!['\\'], seq!['/'])), '/'))
}

pub fn normalize_ignore_path(raw: &[char]) -> (r: Vec<char>)
    ensures
        r@ == ignore_path(raw@),
{
    let t = trim_vec(raw);
    let mut bs: Vec<char> = Vec::new();
    bs.push('\\');
    let mut sl: Vec<char> = Vec::new();
    sl.push('/');
    assert(bs@ =~= seq!['\\']);
    assert(sl@ =~= seq!['/']);
    let v = replace_vec(&t, &bs, &sl);
    let mut i: usize = 0;
    assert(v@.subrange(0, v@.len() as int) =~= v@);
    while v.len() >= 2 && i < v.len() - 1 && v[i] == '.' && v[i + 1] == '/'
        invariant
            0 <= i <= v.len(),
            strip_dot_slash(v@) == strip_dot_slash(v@.subrange(i as int, v@.len() as int)),
        decreases v.len() - i,
    {
        assert(v@.subrange(i as int, v@.len() as int).subrange(2, v@.len() - i) =~= v@.subrange(
            i + 2,
            v@.len() as int,
        ));
        i = i + 2;
    }
    let rest = slice_vec(&v, i, v.len());
    let s = trim_start_char_vec(&rest, '/');
    trim_vec(&s)
}

/// A separator between ignore entries.
pub open spec fn ignore_separator(c: char) -> bool {
    c == ',' || c == ';' || c == '\n'
}

/// The entries of an ignore value: the pieces between `,`, `;` and line
/// feeds, as normalised paths, without the empty ones.
pub open spec fn ignore_entries_of(pieces: Seq<Seq<char>>) -> Seq<Seq<char>>
    decreases pieces.len(),
{
    if pieces.len() == 0 {
        Seq::empty()
    } else {
        let prev = ignore_entries_of(pieces.drop_last());
        let p = ignore_path(pieces.last());
        if p.len() == 0 {
            prev
        } else {
            prev.push(p)
        }
    }
}

pub open spec fn ignore_entries(raw: Seq<char>) -> Seq<Seq<char>> {
    ignore_entries_of(split_by(raw, |c: char| ignore_separator(c)))
}

pub open spec fn string_views(v: Seq<String>) -> Seq<Seq<char>> {
    v.map_values(|s: String| s@)
}

pub fn parse_ignore_entries(raw: &[char]) -> (r: Vec<String>)
    ensures
        string_views(r@) == ignore_entries(raw@),
{
    let ghost sep = |c: char| ignore_separator(c);
    let mut pieces: Vec<Vec<char>> = Vec::new();
    let mut cur: Vec<char> = Vec::new();
    let mut i: usize = 0;
    while i < raw.len()
        invariant
            0 <= i <= raw.len(),
            sep == (|c: char| ignore_separator(c)),
            seqs(pieces@).push(cur@) == split_by(raw@.subrange(0, i as int), sep),
        decreases raw.len() - i,
    {
        let ghost prev = raw@.subrange(0, i as int);
        assert(raw@.subrange(0, i + 1).drop_last() =~= prev);
        assert(raw@.subrange(0, i + 1).last() == raw@[i as int]);
        let ghost old_p = seqs(pieces@);
        let ghost old_c = cur@;
        let c = raw[i];
        if c == ',' || c == ';' || c == '\n' {
            pieces.push(cur);
            cur = Vec::new();
            assert(seqs(pieces@) =~= old_p.push(old_c));
            assert(seqs(pieces@).push(cur@) =~= split_by(prev, sep).push(Seq::empty()));
        } else {
            cur.push(c);
            assert(seqs(pieces@).push(cur@) =~= old_p.push(old_c).update(
                old_p.len() as int,
                old_c.push(c),
            ));
        }
        i = i + 1;
    }
    assert(raw@.subrange(0, raw@.len() as int) =~= raw@);
    let ghost old_p = seqs(pieces@);
    let ghost old_c = cur@;
    pieces.push(cur);
    assert(seqs(pieces@) =~= old_p.push(old_c));
    let ghost ps = seqs(pieces@);
    let mut out: Vec<String> = Vec::new();
    let mut k: usize = 0;
    while k < pieces.len()
        invariant
            0 <= k <= pieces.len(),
            ps == seqs(pieces@),
            string_views(out@) == ignore_entries_of(ps.subrange(0, k as int)),
        decreases pieces.len() - k,
    {
        assert(ps.subrange(0, k + 1).drop_last() =~= ps.subrange(0, k as int));
        assert(ps.subrange(0, k + 1).last() == pieces@[k as int]@);
        let p = normalize_ignore_path(&pieces[k]);
        if p.len() > 0 {
            let ghost before = string_views(out@);
            let s = string_of(&p);
            out.push(s);
            assert(string_views(out@) =~= before.push(p@));
        }
        k = k + 1;
    }
    assert(ps.subrange(0, pieces@.len() as int) =~= ps);
    out
}

/// The entries without repeats; the first of each stays.
pub fn dedup_ignore_list(values: Vec<String>) -> (r: Vec<String>)
    ensures
        string_views(r@) == dedup_keep_first(string_views(values@)),
{
    let ghost vs = string_views(values@);
    let mut out: Vec<String> = Vec::new();
    let mut i: usize = 0;
    while i < values.len()
        invariant
            0 <= i <= values.len(),
            vs == string_views(values@),
            string_views(out@) == dedup_keep_first(vs.subrange(0, i as int)),
        decreases values.len() - i,
    {
        assert(vs.subrange(0, i + 1).drop_last() =~= vs.subrange(0, i as int));
        assert(vs.subrange(0, i + 1).last() == values@[i as int]@);
        let ghost d = string_views(out@);
        let mut seen = false;
        let mut j: usize = 0;
        while j < out.len()
            invariant
                0 <= j <= out.len(),
                0 <= i < values.len(),
                d == string_views(out@),
                seen == (exists|m: int| 0 <= m < j && d[m] == values@[i as int]@),
            decreases out.len() - j,
        {
            assert(d[j as int] == out@[j as int]@);
            if out[j] == values[i] {
                seen = true;
            }
            j = j + 1;
        }
        assert(seen == d.contains(values@[i as int]@));
        if !seen {
            out.push(values[i].clone());
            assert(string_views(out@) =~= d.push(values@[i as int]@));
        }
        i = i + 1;
    }
    assert(vs.subrange(0, values@.len() as int) =~= vs);
    out
}

/// The ASCII digits of a text, in order.
pub open spec fn ascii_digits_of(s: Seq<char>) -> Seq<char>
    decreases s.len(),
{
    if s.len() == 0 {
        s
    } else if is_digit(s.last()) {
        ascii_digits_of(s.drop_last()).push(s.last())
    } else {
        ascii_digits_of(s.drop_last())
    }
}

/// A package version from a profile value: the trimmed text as an `i64`,
/// or else its ASCII digits read as one.
pub open spec fn lenient_i64(raw: Seq<char>) -> Option<int> {
    let t = trim(raw);
    if t.len() == 0 {
        None
    } else if parse_i64_spec(t) is Some {
        parse_i64_spec(t)
    } else {
        let d = ascii_digits_of(t);
        if d.len() == 0 {
            None
        } else {
            parse_i64_spec(d)
        }
    }
}

pub fn parse_lenient_i64(raw: &[char]) -> (r: Option<i64>)
    ensures
        r == (match lenient_i64(raw@) {
            Some(v) => Some(v as i64),
            None => None::<i64>,
        }),
{
    let t = trim_vec(raw);
    if t.len() == 0 {
        return None;
    }
    match parse_i64(&t) {
        Some(v) => return Some(v),
        None => {},
    }
    let mut d: Vec<char> = Vec::new();
    let mut i: usize = 0;
    while i < t.len()
        invariant
            0 <= i <= t.len(),
            d@ == ascii_digits_of(t@.subrange(0, i as int)),
        decreases t.len() - i,
    {
        assert(t@.subrange(0, i + 1).drop_last() =~= t@.subrange(0, i as int));
        if '0' <= t[i] && t[i] <= '9' {
            d.push(t[i]);
        }
        i = i + 1;
    }
    assert(t@.subrange(0, t@.len() as int) =~= t@);
    if d.len() == 0 {
        return None;
    }
    parse_i64(&d)
}

pub open spec fn host_keys() -> Seq<&'static str> {
    seq!["host", "server", "update_host", "updatehost", "base_url", "baseurl", "url", "module"]
}

pub open spec fn login_keys() -> Seq<&'static str> {
    seq!["login", "username", "user", "email"]
}

pub open spec fn license_keys() -> Seq<&'static str> {
    seq!["licensekey", "license_key", "key", "license", "password", "token"]
}

pub open spec fn package_version_keys() -> Seq<&'static str> {
    seq![
        "package_version",
        "packageversion",
        "package",
        "since",
        "revision",
        "snapshotnum",
        "snapshot_num",
    ]
}

pub open spec fn ignore_keys() -> Seq<&'static str> {
    seq!["ignore", "ignore_list", "ignorelist", "exclude", "excludes"]
}

fn host_key_names() -> (r: [&'static str; 8])
    ensures
        r@ == host_keys(),
{
    ["host", "server", "update_host", "updatehost", "base_url", "baseurl", "url", "module"]
}

fn login_key_names() -> (r: [&'static str; 4])
    ensures
        r@ == login_keys(),
{
    ["login", "username", "user", "email"]
}

fn license_key_names() -> (r: [&'static str; 6])
    ensures
        r@ == license_keys(),
{
    ["licensekey", "license_key", "key", "license", "password", "token"]
}

fn package_version_key_names() -> (r: [&'static str; 7])
    ensures
        r@ == package_version_keys(),
{
    [
        "package_version",
        "packageversion",
        "package",
        "since",
        "revision",
        "snapshotnum",
        "snapshot_num",
    ]
}

fn ignore_key_names() -> (r: [&'static str; 5])
    ensures
        r@ == ignore_keys(),
{
    ["ignore", "ignore_list", "ignorelist", "exclude", "excludes"]
}

/// A trimmed line that carries no setting: empty, or a `#` or `;` comment.
pub open spec fn cfg_comment_line(line: Seq<char>) -> bool {
    line.len() == 0 || line[0] == '#' || line[0] == ';'
}

/// What is read so far from a configuration profile: host, login, key,
/// package version, version label and ignore entries.
pub type CfgProfileState = (
    Option<Seq<char>>,
    Option<Seq<char>>,
    Option<Seq<char>>,
    Option<int>,
    Option<Seq<char>>,
    Seq<Seq<char>>,
);

/// Reads one line of a configuration profile. Keys are compared after
/// trimming and Unicode lower-casing; empty values are skipped.
pub open spec fn cfg_profile_step(st: CfgProfileState, raw: Seq<char>) -> CfgProfileState {
    let line = trim(raw);
    if cfg_comment_line(line) {
        st
    } else {
        match cfg_line_parts(line) {
            None => st,
            Some((k, v, _sep)) => {
                let key = lowercase(trim(k));
                let value = cfg_value(v);
                if value.len() == 0 {
                    st
                } else if one_of(key, host_keys()) {
                    (Some(value), st.1, st.2, st.3, st.4, st.5)
                } else if one_of(key, login_keys()) {
                    (st.0, Some(value), st.2, st.3, st.4, st.5)
                } else if one_of(key, license_keys()) {
                    (st.0, st.1, Some(value), st.3, st.4, st.5)
                } else if one_of(key, package_version_keys()) {
                    (st.0, st.1, st.2, lenient_i64(value), st.4, st.5)
                } else if key == "version"@ {
                    (
                        st.0,
                        st.1,
                        st.2,
                        if st.3 is None {
                            lenient_i64(value)
                        } else {
                            st.3
                        },
                        Some(value),
                        st.5,
                    )
                } else if one_of(key, ignore_keys()) {
                    (st.0, st.1, st.2, st.3, st.4, st.5 + ignore_entries(value))
                } else {
                    st
                }
            },
        }
    }
}

pub open spec fn cfg_profile_scan(ls: Seq<Seq<char>>) -> CfgProfileState
    decreases ls.len(),
{
    if ls.len() == 0 {
        (None, None, None, None, None, Seq::empty())
    } else {
        cfg_profile_step(cfg_profile_scan(ls.drop_last()), ls.last())
    }
}

pub open spec fn opt_view(o: Option<String>) -> Option<Seq<char>> {
    match o {
        Some(s) => Some(s@),
        None => None,
    }
}

pub open spec fn opt_int(o: Option<i64>) -> Option<int> {
    match o {
        Some(v) => Some(v as int),
        None => None,
    }
}

/// The profile that a configuration text describes.
pub open spec fn cfg_profile_matches(p: XUpdaterProfile, text: Seq<char>) -> bool {
    let st = cfg_profile_scan(lines(text));
    &&& p.host@ == normalized_host(st.0)
    &&& opt_view(p.login) == st.1
    &&& opt_view(p.license_key) == st.2
    &&& opt_int(p.package_version) == st.3
    &&& opt_view(p.version_label) == st.4
    &&& string_views(p.ignore_list@) == dedup_keep_first(st.5)
}

fn opt_string(v: &Option<Vec<char>>) -> (r: Option<String>)
    ensures
        opt_view(r) == (match v {
            Some(x) => Some(x@),
            None => None::<Seq<char>>,
        }),
{
    match v {
        Some(x) => Some(string_of(x)),
        None => None,
    }
}

/// Reads a configuration profile (`key=value` or `key|value` lines).
pub fn parse_profile_cfg(text: &str) -> (r: XUpdaterProfile)
    ensures
        cfg_profile_matches(r, text@),
{
    let t = chars_of(text);
    let ls = lines_of(&t);
    let ghost all = seqs(ls@);
    let hk = host_key_names();
    let lk = login_key_names();
    let kk = license_key_names();
    let pk = package_version_key_names();
    let ik = ignore_key_names();
    let version = chars_of("version");
    let mut host: Option<Vec<char>> = None;
    let mut login: Option<Vec<char>> = None;
    let mut license_key: Option<Vec<char>> = None;
    let mut package_version: Option<i64> = None;
    let mut version_label: Option<Vec<char>> = None;
    let mut ignore_list: Vec<String> = Vec::new();
    let mut i: usize = 0;
    while i < ls.len()
        invariant
            0 <= i <= ls.len(),
            all == seqs(ls@),
            hk@ == host_keys(),
            lk@ == login_keys(),
            kk@ == license_keys(),
            pk@ == package_version_keys(),
            ik@ == ignore_keys(),
            version@ == "version"@,
            (
                match host {
                    Some(x) => Some(x@),
                    None => None::<Seq<char>>,
                },
                match login {
                    Some(x) => Some(x@),
                    None => None::<Seq<char>>,
                },
                match license_key {
                    Some(x) => Some(x@),
                    None => None::<Seq<char>>,
                },
                opt_int(package_version),
                match version_label {
                    Some(x) => Some(x@),
                    None => None::<Seq<char>>,
                },
                string_views(ignore_list@),
            ) == cfg_profile_scan(all.subrange(0, i as int)),
        decreases ls.len() - i,
    {
        assert(all.subrange(0, i + 1).drop_last() =~= all.subrange(0, i as int));
        assert(all.subrange(0, i + 1).last() == ls@[i as int]@);
        let line = trim_vec(&ls[i]);
        if line.len() == 0 || line[0] == '#' || line[0] == ';' {
            i = i + 1;
            continue;
        }
        let (k, v) = match split_cfg_line(&line) {
            Some((k, v, _sep)) => (k, v),
            None => {
                i = i + 1;
                continue;
            },
        };
        let key = to_lowercase_chars(&trim_vec(&k));
        let value = parse_cfg_value(&v);
        if value.len() == 0 {
            i = i + 1;
            continue;
        }
        if is_one_of(&key, &hk) {
            host = Some(value);
        } else if is_one_of(&key, &lk) {
            login = Some(value);
        } else if is_one_of(&key, &kk) {
            license_key = Some(value);
        } else if is_one_of(&key, &pk) {
            package_version = parse_lenient_i64(&value);
        } else if eq_chars(&key, &version) {
            if package_version.is_none() {
                package_version = parse_lenient_i64(&value);
            }
            version_label = Some(value);
        } else if is_one_of(&key, &ik) {
            let entries = parse_ignore_entries(&value);
            let ghost before = string_views(ignore_list@);
            let mut j: usize = 0;
            while j < entries.len()
                invariant
                    0 <= j <= entries.len(),
                    string_views(ignore_list@) == before + string_views(entries@).subrange(
                        0,
                        j as int,
                    ),
                decreases entries.len() - j,
            {
                let ghost mid = string_views(ignore_list@);
                ignore_list.push(entries[j].clone());
                assert(string_views(ignore_list@) =~= mid.push(entries@[j as int]@));
                assert(string_views(entries@).subrange(0, j + 1) =~= string_views(entries@).subrange(
                    0,
                    j as int,
                ).push(entries@[j as int]@));
                j = j + 1;
                assert(string_views(ignore_list@) =~= before + string_views(entries@).subrange(
                    0,
                    j as int,
                ));
            }
            assert(string_views(entries@).subrange(0, entries@.len() as int) =~= string_views(
                entries@,
            ));
        }
        i = i + 1;
    }
    assert(all.subrange(0, ls@.len() as int) =~= all);
    let host_s = opt_string(&host);
    let host_n = match &host_s {
        Some(h) => normalize_host(Some(h.as_str())),
        None => normalize_host(None),
    };
    XUpdaterProfile {
        host: host_n,
        login: opt_string(&login),
        license_key: opt_string(&license_key),
        package_version,
        version_label: opt_string(&version_label),
        ignore_list: dedup_ignore_list(ignore_list),
    }
}

/// The profile of a native install that has no credentials yet.
pub open spec fn is_default_profile(p: XUpdaterProfile) -> bool {
    &&& p.host@ == default_host()
    &&& p.login is None
    &&& p.license_key is None
    &&& p.package_version is None
    &&& p.version_label is None
    &&& p.ignore_list@.len() == 0
}

/// The index of the first profile with credentials.
pub open spec fn first_with_credentials(ps: Seq<XUpdaterProfile>, k: int) -> Option<int>
    decreases ps.len() - k,
{
    if k < 0 || k >= ps.len() {
        None
    } else if ps[k].login is Some && ps[k].license_key is Some {
        Some(k)
    } else {
        first_with_credentials(ps, k + 1)
    }
}

proof fn lemma_first_with_credentials(ps: Seq<XUpdaterProfile>, k: int)
    requires
        0 <= k,
    ensures
        first_with_credentials(ps, k) matches Some(i) ==> k <= i < ps.len(),
    decreases ps.len() - k,
{
    if k < ps.len() && !(ps[k].login is Some && ps[k].license_key is Some) {
        lemma_first_with_credentials(ps, k + 1);
    }
}

/// The profile of an add-on folder, from the profiles read from its
/// candidate files (in the order they were found): the first with
/// credentials, else the first one; with none, the default profile when
/// the folder has the native X-Updater layout.
pub fn find_profile_in_folder(profiles: Vec<XUpdaterProfile>, has_native_layout: bool) -> (r:
    Option<XUpdaterProfile>)
    ensures
        match first_with_credentials(profiles@, 0) {
            Some(i) => r == Some(profiles@[i]),
            None => if profiles@.len() > 0 {
                r == Some(profiles@[0])
            } else if has_native_layout {
                r matches Some(p) && is_default_profile(p)
            } else {
                r is None
            },
        },
{
    let ghost ps = profiles@;
    proof {
        lemma_first_with_credentials(ps, 0);
    }
    let mut list = profiles;
    let mut i: usize = 0;
    while i < list.len()
        invariant
            0 <= i <= list.len(),
            list@ == ps,
            ps == profiles@,
            first_with_credentials(ps, 0) == first_with_credentials(ps, i as int),
        decreases list.len() - i,
    {
        if list[i].has_credentials() {
            assert(first_with_credentials(ps, i as int) == Some(i as int));
            let p = list.remove(i);
            assert(p == ps[i as int]);
            return Some(p);
        }
        i = i + 1;
    }
    if list.len() > 0 {
        return Some(list.remove(0));
    }
    if has_native_layout {
        return Some(
            XUpdaterProfile {
                host: string_of(&chars_of("https://update.x-plane.org")),
                login: None,
                license_key: None,
                package_version: None,
                version_label: None,
                ignore_list: Vec::new(),
            },
        );
    }
    None
}

/// The separator of the first line (trimmed) that holds a setting, `=`
/// when there is none.
pub open spec fn default_separator(ls: Seq<Seq<char>>) -> char
    decreases ls.len(),
{
    if ls.len() == 0 {
        '='
    } else {
        match cfg_line_parts(trim(ls[0])) {
            Some((_k, _v, c)) => c,
            None => default_separator(ls.drop_first()),
        }
    }
}

/// While credentials are written into a profile: the lines so far, and
/// whether login and key were written and host and `configVersion` seen.
pub type CredentialState = (Seq<Seq<char>>, bool, bool, bool, bool);

/// One line of the profile: login and key lines get the new values (the
/// key trimmed, the value encoded for the line's separator), other lines
/// stay as they are.
pub open spec fn credential_step(
    st: CredentialState,
    raw: Seq<char>,
    login: Seq<char>,
    license_key: Seq<char>,
) -> CredentialState {
    if cfg_comment_line(trim(raw)) {
        (st.0.push(raw), st.1, st.2, st.3, st.4)
    } else {
        match cfg_line_parts(raw) {
            Some((k, _v, sep)) => {
                let key = lowercase(trim(k));
                if one_of(key, login_keys()) {
                    (st.0.push(trim(k) + seq![sep] + encoded_cfg_value(login, sep)), true, st.2, st.3, st.4)
                } else if one_of(key, license_keys()) {
                    (
                        st.0.push(trim(k) + seq![sep] + encoded_cfg_value(license_key, sep)),
                        st.1,
                        true,
                        st.3,
                        st.4,
                    )
                } else {
                    (
                        st.0.push(raw),
                        st.1,
                        st.2,
                        st.3 || one_of(key, host_keys()),
                        st.4 || key == "configversion"@,
                    )
                }
            },
            None => (st.0.push(raw), st.1, st.2, st.3, st.4),
        }
    }
}

pub open spec fn credential_scan(ls: Seq<Seq<char>>, login: Seq<char>, license_key: Seq<char>) -> CredentialState
    decreases ls.len(),
{
    if ls.len() == 0 {
        (Seq::empty(), false, false, false, false)
    } else {
        credential_step(credential_scan(ls.drop_last(), login, license_key), ls.last(), login, license_key)
    }
}

/// The profile text with the credentials written in: the lines rewritten as
/// `credential_step` says, a comment line when there were none, then the
/// host, login, key and `configVersion` lines that were missing (with the
/// default separator), joined by line feeds and ending in one.
pub open spec fn credentials_text(text: Seq<char>, login: Seq<char>, license_key: Seq<char>) -> Seq<char> {
    let ls = lines(text);
    let ds = default_separator(ls);
    let st = credential_scan(ls, login, license_key);
    let o1 = if st.0.len() == 0 {
        seq!["#ClientApp properties"@]
    } else {
        st.0
    };
    let o2 = if !st.3 {
        o1.push("host"@ + seq![ds] + encoded_cfg_value(default_host(), ds))
    } else {
        o1
    };
    let o3 = if !st.1 {
        o2.push("login"@ + seq![ds] + encoded_cfg_value(login, ds))
    } else {
        o2
    };
    let o4 = if !st.2 {
        o3.push("key"@ + seq![ds] + encoded_cfg_value(license_key, ds))
    } else {
        o3
    };
    let o5 = if !st.4 {
        o4.push("configVersion"@ + seq![ds] + "3"@)
    } else {
        o4
    };
    let joined = join(o5, "\n"@);
    if joined.len() > 0 && joined.last() == '\n' {
        joined
    } else {
        joined.push('\n')
    }
}

fn setting_line(key: &[char], sep: char, value: &str) -> (r: Vec<char>)
    ensures
        r@ == key@ + seq![sep] + encoded_cfg_value(value@, sep),
{
    let mut v = copy_chars(key);
    v.push(sep);
    push_all(&mut v, &chars_of(encode_cfg_value(value, sep).as_str()));
    v
}

fn default_separator_of(ls: &[Vec<char>]) -> (r: char)
    ensures
        r == default_separator(seqs(ls@)),
{
    let ghost all = seqs(ls@);
    let mut d: usize = 0;
    assert(all.subrange(0, all.len() as int) =~= all);
    while d < ls.len()
        invariant
            0 <= d <= ls.len(),
            all == seqs(ls@),
            default_separator(all) == default_separator(all.subrange(d as int, all.len() as int)),
        decreases ls.len() - d,
    {
        let ghost rest = all.subrange(d as int, all.len() as int);
        assert(rest[0] == ls@[d as int]@);
        assert(rest.drop_first() =~= all.subrange(d + 1, all.len() as int));
        match split_cfg_line(&trim_vec(&ls[d])) {
            Some((_k, _v, c)) => {
                return c;
            },
            None => {},
        }
        d = d + 1;
    }
    assert(all.subrange(d as int, all.len() as int).len() == 0);
    '='
}

/// The text of a profile after writing `login` and `license_key` into it
/// (what is written back to the file).
pub fn cfg_credentials_text(text: &str, login: &str, license_key: &str) -> (r: String)
    ensures
        r@ == credentials_text(text@, login@, license_key@),
{
    let t = chars_of(text);
    let ls = lines_of(&t);
    let ghost all = seqs(ls@);
    let ds = default_separator_of(&ls);
    assert(ds == default_separator(all));
    let hk = host_key_names();
    let lk = login_key_names();
    let kk = license_key_names();
    let cv = chars_of("configversion");
    let mut out: Vec<Vec<char>> = Vec::new();
    let mut login_written = false;
    let mut key_written = false;
    let mut host_found = false;
    let mut cv_found = false;
    let mut i: usize = 0;
    while i < ls.len()
        invariant
            0 <= i <= ls.len(),
            all == seqs(ls@),
            hk@ == host_keys(),
            lk@ == login_keys(),
            kk@ == license_keys(),
            cv@ == "configversion"@,
            (seqs(out@), login_written, key_written, host_found, cv_found) == credential_scan(
                all.subrange(0, i as int),
                login@,
                license_key@,
            ),
        decreases ls.len() - i,
    {
        assert(all.subrange(0, i + 1).drop_last() =~= all.subrange(0, i as int));
        assert(all.subrange(0, i + 1).last() == ls@[i as int]@);
        let ghost before = seqs(out@);
        let line = trim_vec(&ls[i]);
        if line.len() == 0 || line[0] == '#' || line[0] == ';' {
            out.push(copy_chars(&ls[i]));
            assert(seqs(out@) =~= before.push(ls@[i as int]@));
        } else {
            match split_cfg_line(&ls[i]) {
                Some((k, _v, sep)) => {
                    let kt = trim_vec(&k);
                    let key = to_lowercase_chars(&kt);
                    if is_one_of(&key, &lk) {
                        let l = setting_line(&kt, sep, login);
                        out.push(l);
                        assert(seqs(out@) =~= before.push(l@));
                        login_written = true;
                    } else if is_one_of(&key, &kk) {
                        let l = setting_line(&kt, sep, license_key);
                        out.push(l);
                        assert(seqs(out@) =~= before.push(l@));
                        key_written = true;
                    } else {
                        if is_one_of(&key, &hk) {
                            host_found = true;
                        }
                        if eq_chars(&key, &cv) {
                            cv_found = true;
                        }
                        out.push(copy_chars(&ls[i]));
                        assert(seqs(out@) =~= before.push(ls@[i as int]@));
                    }
                },
                None => {
                    out.push(copy_chars(&ls[i]));
                    assert(seqs(out@) =~= before.push(ls@[i as int]@));
                },
            }
        }
        i = i + 1;
    }
    assert(all.subrange(0, ls@.len() as int) =~= all);
    let ghost o0 = seqs(out@);
    if out.len() == 0 {
        out.push(chars_of("#ClientApp properties"));
        assert(seqs(out@) =~= seq!["#ClientApp properties"@]);
    }
    if !host_found {
        let ghost b = seqs(out@);
        let l = setting_line(&chars_of("host"), ds, "https://update.x-plane.org");
        out.push(l);
        assert(seqs(out@) =~= b.push(l@));
    }
    if !login_written {
        let ghost b = seqs(out@);
        let l = setting_line(&chars_of("login"), ds, login);
        out.push(l);
        assert(seqs(out@) =~= b.push(l@));
    }
    if !key_written {
        let ghost b = seqs(out@);
        let l = setting_line(&chars_of("key"), ds, license_key);
        out.push(l);
        assert(seqs(out@) =~= b.push(l@));
    }
    if !cv_found {
        let ghost b = seqs(out@);
        let mut l = chars_of("configVersion");
        l.push(ds);
        push_all(&mut l, &chars_of("3"));
        assert(l@ =~= "configVersion"@ + seq![ds] + "3"@);
        out.push(l);
        assert(seqs(out@) =~= b.push("configVersion"@ + seq![ds] + "3"@));
    }
    let mut joined = join_all(&out, &chars_of("\n"));
    if !(joined.len() > 0 && joined[joined.len() - 1] == '\n') {
        joined.push('\n');
    }
    string_of(&joined)
}


/// A configuration file found for a profile: whether it lies in a native
/// X-Updater folder, whether it is named `x-updater.cnf` (Unicode lower
/// case), and whether it holds credentials.
#[derive(Debug, Clone, Copy)]
pub struct CfgCandidate {
    pub inside_native_dir: bool,
    pub named_native: bool,
    pub has_credentials: bool,
}

/// How much a configuration file is preferred for writing credentials.
pub open spec fn cfg_score(c: CfgCandidate) -> int {
    (if c.inside_native_dir { 100int } else { 0int }) + (if c.named_native { 20int } else { 0int }) + (if c.has_credentials {
        10int
    } else {
        0int
    })
}

/// The configuration file to write credentials into: the first of the
/// highest score.
pub fn preferred_cfg_candidate(cands: &[CfgCandidate]) -> (r: Option<usize>)
    ensures
        cands@.len() == 0 ==> r is None,
        cands@.len() > 0 ==> (r matches Some(i) && i < cands@.len() && (forall|j: int|
            0 <= j < cands@.len() ==> cfg_score(#[trigger] cands@[j]) <= cfg_score(cands@[i as int])) && (forall|j: int|
            0 <= j < i ==> cfg_score(#[trigger] cands@[j]) < cfg_score(cands@[i as int]))),
{
    if cands.len() == 0 {
        return None;
    }
    let mut best: usize = 0;
    let mut best_score: u32 = 0;
    let mut i: usize = 0;
    while i < cands.len()
        invariant
            0 <= i <= cands.len(),
            cands@.len() > 0,
            best < cands@.len(),
            i > 0 ==> best < i,
            i > 0 ==> best_score == cfg_score(cands@[best as int]),
            forall|j: int| 0 <= j < i ==> cfg_score(#[trigger] cands@[j]) <= cfg_score(cands@[best as int]),
            forall|j: int| 0 <= j < best ==> cfg_score(#[trigger] cands@[j]) < cfg_score(cands@[best as int]),
            i == 0 ==> best == 0,
        decreases cands.len() - i,
    {
        let c = cands[i];
        let score: u32 = (if c.inside_native_dir { 100 } else { 0 }) + (if c.named_native { 20 } else { 0 }) + (if c.has_credentials {
            10
        } else {
            0
        });
        if i == 0 || score > best_score {
            best = i;
            best_score = score;
        }
        i = i + 1;
    }
    Some(best)
}

/// The login and key to write: trimmed, and both required.
pub fn credentials_to_write(login: &str, license_key: &str) -> (r: Result<(String, String), String>)
    ensures
        (trim(login@).len() == 0 || trim(license_key@).len() == 0) ==> (r matches Err(e) && e@
            == "Missing account or activation key"@),
        !(trim(login@).len() == 0 || trim(license_key@).len() == 0) ==> (r matches Ok((l, k)) && l@ == trim(
            login@,
        ) && k@ == trim(license_key@)),
{
    let l = trim_vec(&chars_of(login));
    let k = trim_vec(&chars_of(license_key));
    if l.len() == 0 || k.len() == 0 {
        return Err(string_of(&chars_of("Missing account or activation key")));
    }
    Ok((string_of(&l), string_of(&k)))
}


/// Folder names of native X-Updater installs.
pub open spec fn native_dir_names() -> Seq<&'static str> {
    seq!["x-updater", "x_updater", "xupdater"]
}

/// Files whose presence shows a native X-Updater install.
pub open spec fn native_marker_files() -> Seq<&'static str> {
    seq![
        "client-configuration",
        "productid",
        "xupdignore",
        "description.txt",
        "x-updater.log",
        "x-updater.log.1",
        "x-updater.log.2",
    ]
}

/// A folder name (Unicode lower case) of a native X-Updater install.
pub fn is_native_updater_dir_name(name: &str) -> (r: bool)
    ensures
        r == one_of(lowercase(name@), native_dir_names()),
{
    let n = to_lowercase_chars(&chars_of(name));
    let names = ["x-updater", "x_updater", "xupdater"];
    assert(names@ == native_dir_names());
    is_one_of(&n, &names)
}

/// A file name (Unicode lower case) that marks a native X-Updater install:
/// a profile or one of its marker files.
pub fn is_native_marker_file_name(name: &str) -> (r: bool)
    ensures
        r == (profile_file_name(name@) || one_of(lowercase(name@), native_marker_files())),
{
    let n = to_lowercase_chars(&chars_of(name));
    let markers = [
        "client-configuration",
        "productid",
        "xupdignore",
        "description.txt",
        "x-updater.log",
        "x-updater.log.1",
        "x-updater.log.2",
    ];
    assert(markers@ == native_marker_files());
    is_profile_file_name(name) || is_one_of(&n, &markers)
}

/// A configuration (not JSON) profile file name, in Unicode lower case.
pub fn is_cfg_profile_file_name(name: &str) -> (r: bool)
    ensures
        r == one_of(lowercase(name@), profile_cfg_files()),
{
    let n = to_lowercase_chars(&chars_of(name));
    let cfg = profile_cfg_file_names();
    is_one_of(&n, &cfg)
}

/// Whether a profile file name is that of the native configuration file
/// (`x-updater.cnf`, in Unicode lower case).
pub fn is_native_cfg_name(name: &str) -> (r: bool)
    ensures
        r == (lowercase(name@) == "x-updater.cnf"@),
{
    let n = to_lowercase_chars(&chars_of(name));
    eq_chars(&n, &chars_of("x-updater.cnf"))
}

} // verus!
