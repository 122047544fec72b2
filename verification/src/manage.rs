//! The management index: safe folder names, the version of an add-on read
//! from its updater configuration and version files, the platform of a
//! plugin, and what enabling or disabling an add-on renames.

use vstd::prelude::*;
use crate::addon::trimmed_nonblank;
use crate::num::{dec, dec_vec, digits_value, is_digit};
use crate::text::{
    chars_of, contains, contains_exec, eq_str, find, find_exec, is_ws, join, join_all, lines,
    lines_of, lowercase, push_all, seqs, slice_vec, split_ws, starts_with, starts_with_exec,
    string_of, to_lowercase_chars, trim, trim_vec, ws_tokens, dedup_keep_first,
    ends_with, ends_with_exec,
};
use crate::xupdater::{ascii_digits_of, dedup_ignore_list, string_views};

verus! {

/// A folder or file name that stays where it is put: not empty, no `..`,
/// no `/` and no `\`.
pub open spec fn plain_name(name: Seq<char>) -> bool {
    name.len() > 0 && !contains(name, ".."@) && !contains(name, "/"@) && !contains(name, "\\"@)
}

fn plain_name_exec(name: &str) -> (r: bool)
    ensures
        r == plain_name(name@),
{
    let n = chars_of(name);
    proof {
        reveal_strlit("..");
        reveal_strlit("/");
        reveal_strlit("\\");
    }
    n.len() > 0 && !contains_exec(&n, &chars_of("..")) && !contains_exec(&n, &chars_of("/"))
        && !contains_exec(&n, &chars_of("\\"))
}

pub fn validate_folder_name(folder_name: &str) -> (r: Result<(), String>)
    ensures
        plain_name(folder_name@) ==> r is Ok,
        !plain_name(folder_name@) ==> (r matches Err(e) && e@ == "Invalid folder name"@),
{
    if plain_name_exec(folder_name) {
        Ok(())
    } else {
        Err(string_of(&chars_of("Invalid folder name")))
    }
}

pub fn validate_script_file_name(file_name: &str) -> (r: Result<(), String>)
    ensures
        plain_name(file_name@) ==> r is Ok,
        !plain_name(file_name@) ==> (r matches Err(e) && e@ == "Invalid file name"@),
{
    if plain_name_exec(file_name) {
        Ok(())
    } else {
        Err(string_of(&chars_of("Invalid file name")))
    }
}

/// The folders under the X-Plane root that hold managed items of a type.
pub open spec fn management_base_of(item_type: Seq<char>) -> Result<Seq<Seq<char>>, Seq<char>> {
    if item_type == "aircraft"@ {
        Ok(seq!["Aircraft"@])
    } else if item_type == "plugin"@ {
        Ok(seq!["Resources"@, "plugins"@])
    } else if item_type == "navdata"@ {
        Ok(seq!["Custom Data"@])
    } else {
        Err("Unknown item type: "@ + item_type)
    }
}

pub fn management_base_folders(item_type: &str) -> (r: Result<Vec<String>, String>)
    ensures
        match management_base_of(item_type@) {
            Ok(b) => r matches Ok(v) && string_views(v@) == b,
            Err(e) => r matches Err(x) && x@ == e,
        },
{
    let t = chars_of(item_type);
    let mut v: Vec<String> = Vec::new();
    if eq_str(&t, "aircraft") {
        v.push(string_of(&chars_of("Aircraft")));
        assert(string_views(v@) =~= seq!["Aircraft"@]);
    } else if eq_str(&t, "plugin") {
        v.push(string_of(&chars_of("Resources")));
        v.push(string_of(&chars_of("plugins")));
        assert(string_views(v@) =~= seq!["Resources"@, "plugins"@]);
    } else if eq_str(&t, "navdata") {
        v.push(string_of(&chars_of("Custom Data")));
        assert(string_views(v@) =~= seq!["Custom Data"@]);
    } else {
        let mut m = chars_of("Unknown item type: ");
        push_all(&mut m, &t);
        return Err(string_of(&m));
    }
    Ok(v)
}

/// Text that holds a version-like pattern: a digit, a dot and a digit in a
/// row.
pub open spec fn version_pattern(s: Seq<char>) -> bool {
    exists|j: int| 0 < j < s.len() - 1 && #[trigger] s[j] == '.' && is_digit(s[j - 1]) && is_digit(s[j + 1])
}

pub fn has_version_pattern(s: &str) -> (r: bool)
    ensures
        r == version_pattern(s@),
{
    let v = chars_of(s);
    let n = v.len();
    if n < 3 {
        return false;
    }
    let mut j: usize = 1;
    while j < n - 1
        invariant
            1 <= j <= n - 1,
            n >= 3,
            n == v@.len(),
            v@ == s@,
            forall|k: int| 0 < k < j && k < n - 1 ==> !(#[trigger] v@[k] == '.' && is_digit(v@[k - 1])
                && is_digit(v@[k + 1])),
        decreases n - j,
    {
        if v[j] == '.' && '0' <= v[j - 1] && v[j - 1] <= '9' && '0' <= v[j + 1] && v[j + 1] <= '9' {
            return true;
        }
        j = j + 1;
    }
    false
}

/// The values of the digit pairs of a digit run (a last single digit on
/// its own), each as a decimal number.
pub open spec fn pair_values(d: Seq<char>) -> Seq<Seq<char>>
    decreases d.len(),
{
    if d.len() == 0 {
        Seq::empty()
    } else if d.len() <= 2 {
        seq![dec(digits_value(d))]
    } else {
        seq![dec(digits_value(d.subrange(0, 2)))] + pair_values(d.subrange(2, d.len() as int))
    }
}

/// A version read from the digits of a text taken two at a time, when it
/// has at least four.
pub open spec fn digit_version(s: Seq<char>) -> Option<Seq<char>> {
    let d = ascii_digits_of(s);
    if d.len() < 4 {
        None
    } else {
        Some(join(pair_values(d), "."@))
    }
}

fn small_value(d: &[char]) -> (r: u64)
    requires
        1 <= d@.len() <= 2,
        forall|i: int| 0 <= i < d@.len() ==> is_digit(#[trigger] d@[i]),
    ensures
        r == digits_value(d@),
{
    let c0 = d[0];
    let a = (c0 as u32 - '0' as u32) as u64;
    assert(a == crate::num::digit_value(c0));
    if d.len() == 1 {
        assert(d@.drop_last() =~= Seq::<char>::empty());
        assert(digits_value(d@) == digits_value(d@.drop_last()) * 10 + crate::num::digit_value(d@.last()));
        a
    } else {
        let c1 = d[1];
        let b = (c1 as u32 - '0' as u32) as u64;
        assert(b == crate::num::digit_value(c1));
        assert(d@.drop_last() =~= seq![c0]);
        assert(seq![c0].drop_last() =~= Seq::<char>::empty());
        assert(digits_value(seq![c0]) == digits_value(seq![c0].drop_last()) * 10 + crate::num::digit_value(c0));
        assert(digits_value(d@) == digits_value(d@.drop_last()) * 10 + crate::num::digit_value(d@.last()));
        a * 10 + b
    }
}

pub fn try_parse_digit_version(s: &str) -> (r: Option<String>)
    ensures
        match digit_version(s@) {
            Some(v) => r matches Some(x) && x@ == v,
            None => r is None,
        },
{
    let t = chars_of(s);
    let mut d: Vec<char> = Vec::new();
    let mut i: usize = 0;
    while i < t.len()
        invariant
            0 <= i <= t.len(),
            t@ == s@,
            d@ == ascii_digits_of(t@.subrange(0, i as int)),
            forall|k: int| 0 <= k < d@.len() ==> is_digit(#[trigger] d@[k]),
        decreases t.len() - i,
    {
        assert(t@.subrange(0, i + 1).drop_last() =~= t@.subrange(0, i as int));
        assert(t@.subrange(0, i + 1).last() == t@[i as int]);
        if '0' <= t[i] && t[i] <= '9' {
            d.push(t[i]);
        }
        i = i + 1;
    }
    assert(t@.subrange(0, t@.len() as int) =~= t@);
    if d.len() < 4 {
        return None;
    }
    let mut parts: Vec<Vec<char>> = Vec::new();
    let mut k: usize = 0;
    assert(d@.subrange(0, d@.len() as int) =~= d@);
    while k < d.len()
        invariant
            0 <= k <= d.len(),
            forall|m: int| 0 <= m < d@.len() ==> is_digit(#[trigger] d@[m]),
            seqs(parts@) + pair_values(d@.subrange(k as int, d@.len() as int)) == pair_values(d@),
        decreases d.len() - k,
    {
        let ghost rest = d@.subrange(k as int, d@.len() as int);
        let end = if d.len() - k <= 2 {
            d.len()
        } else {
            k + 2
        };
        let chunk = slice_vec(&d, k, end);
        let v = small_value(&chunk);
        let ghost b = seqs(parts@);
        parts.push(dec_vec(v));
        if d.len() - k <= 2 {
            assert(rest =~= chunk@);
            assert(pair_values(d@.subrange(end as int, d@.len() as int)) =~= Seq::<Seq<char>>::empty());
        } else {
            assert(rest.subrange(0, 2) =~= chunk@);
            assert(rest.subrange(2, rest.len() as int) =~= d@.subrange(end as int, d@.len() as int));
        }
        assert(seqs(parts@) =~= b.push(dec(digits_value(chunk@))));
        k = end;
    }
    assert(d@.subrange(d@.len() as int, d@.len() as int) =~= Seq::<char>::empty());
    assert(seqs(parts@) =~= pair_values(d@));
    let mut dot: Vec<char> = Vec::new();
    dot.push('.');
    proof {
        reveal_strlit(".");
    }
    assert(dot@ =~= "."@);
    Some(string_of(&join_all(&parts, &dot)))
}

/// The text after the first `|` of a line, if it has one.
pub open spec fn after_bar(line: Seq<char>) -> Option<Seq<char>> {
    match find(line, "|"@) {
        Some(i) => Some(line.subrange(i + 1, line.len() as int)),
        None => None,
    }
}

fn after_bar_vec(line: &[char]) -> (r: Option<Vec<char>>)
    ensures
        match after_bar(line@) {
            Some(t) => r matches Some(x) && x@ == t,
            None => r is None,
        },
{
    proof {
        reveal_strlit("|");
    }
    let n = line.len();
    assert(n == line@.len());
    match find_exec(line, &chars_of("|")) {
        Some(i) => {
            proof {
                crate::text::lemma_find_after(line@, "|"@, 0);
            }
            Some(slice_vec(line, i + 1, line.len()))
        },
        None => None,
    }
}

/// What an updater configuration says: its version (the last `version|`
/// line with a value), its module URL (the last `module|` line with a
/// value), and whether it is disabled (the last `disabled|` line).
pub open spec fn cfg_info(ls: Seq<Seq<char>>) -> (Option<Seq<char>>, Option<Seq<char>>, Option<bool>)
    decreases ls.len(),
{
    if ls.len() == 0 {
        (None, None, None)
    } else {
        let (v, u, d) = cfg_info(ls.drop_last());
        let line = trim(ls.last());
        let low = lowercase(line);
        if starts_with(low, "version|"@) {
            match after_bar(line) {
                Some(x) => if trim(x).len() > 0 {
                    (Some(trim(x)), u, d)
                } else {
                    (v, u, d)
                },
                None => (v, u, d),
            }
        } else if starts_with(low, "module|"@) {
            match after_bar(line) {
                Some(x) => if trim(x).len() > 0 {
                    (v, Some(trim(x)), d)
                } else {
                    (v, u, d)
                },
                None => (v, u, d),
            }
        } else if starts_with(low, "disabled|"@) {
            match after_bar(line) {
                Some(x) => {
                    let val = lowercase(trim(x));
                    (v, u, Some(val == "true"@ || val == "1"@))
                },
                None => (v, u, d),
            }
        } else {
            (v, u, d)
        }
    }
}

/// The non-blank lines of the version files, trimmed, file after file.
pub open spec fn version_file_lines(texts: Seq<Seq<char>>) -> Seq<Seq<char>>
    decreases texts.len(),
{
    if texts.len() == 0 {
        Seq::empty()
    } else {
        version_file_lines(texts.drop_last()) + trimmed_nonblank(lines(texts.last()))
    }
}

/// The version-like words of the lines that hold a version pattern.
pub open spec fn version_words(ls: Seq<Seq<char>>) -> Seq<Seq<char>>
    decreases ls.len(),
{
    if ls.len() == 0 {
        Seq::empty()
    } else {
        let prev = version_words(ls.drop_last());
        if version_pattern(ls.last()) {
            prev + ws_tokens(ls.last()).filter(|t: Seq<char>| version_pattern(t))
        } else {
            prev
        }
    }
}

/// The version of an add-on with its update URL and disabled flag: the
/// configuration's version when it has one; else the distinct version-like
/// words of the version files joined by `/`; else the version in the
/// digits of their first line, or that line; the URL and flag come from
/// the configuration.
pub open spec fn version_info(cfg: Option<Seq<char>>, texts: Seq<Seq<char>>) -> (
    Option<Seq<char>>,
    Option<Seq<char>>,
    Option<bool>,
) {
    let (cv, url, dis) = match cfg {
        Some(c) => cfg_info(lines(c)),
        None => (None, None, None),
    };
    if cv is Some {
        (cv, url, dis)
    } else {
        let ls = version_file_lines(texts);
        let words = dedup_keep_first(version_words(ls));
        if words.len() > 0 {
            (Some(join(words, "/"@)), url, dis)
        } else if ls.len() > 0 {
            match digit_version(ls[0]) {
                Some(v) => (Some(v), url, dis),
                None => (Some(ls[0]), url, dis),
            }
        } else {
            (None, url, dis)
        }
    }
}

pub open spec fn opt_string_view(o: Option<String>) -> Option<Seq<char>> {
    match o {
        Some(s) => Some(s@),
        None => None,
    }
}

fn cfg_info_exec(content: &str) -> (r: (Option<String>, Option<String>, Option<bool>))
    ensures
        (opt_string_view(r.0), opt_string_view(r.1), r.2) == cfg_info(lines(content@)),
{
    let ls = lines_of(&chars_of(content));
    let ghost all = seqs(ls@);
    let mut v: Option<String> = None;
    let mut u: Option<String> = None;
    let mut d: Option<bool> = None;
    let mut i: usize = 0;
    proof {
        reveal_strlit("version|");
        reveal_strlit("module|");
        reveal_strlit("disabled|");
        reveal_strlit("true");
        reveal_strlit("1");
    }
    while i < ls.len()
        invariant
            0 <= i <= ls.len(),
            all == seqs(ls@),
            (opt_string_view(v), opt_string_view(u), d) == cfg_info(all.subrange(0, i as int)),
        decreases ls.len() - i,
    {
        assert(all.subrange(0, i + 1).drop_last() =~= all.subrange(0, i as int));
        assert(all.subrange(0, i + 1).last() == ls@[i as int]@);
        let line = trim_vec(&ls[i]);
        let low = to_lowercase_chars(&line);
        if starts_with_exec(&low, &chars_of("version|")) {
            match after_bar_vec(&line) {
                Some(x) => {
                    let t = trim_vec(&x);
                    if t.len() > 0 {
                        v = Some(string_of(&t));
                    }
                },
                None => {},
            }
        } else if starts_with_exec(&low, &chars_of("module|")) {
            match after_bar_vec(&line) {
                Some(x) => {
                    let t = trim_vec(&x);
                    if t.len() > 0 {
                        u = Some(string_of(&t));
                    }
                },
                None => {},
            }
        } else if starts_with_exec(&low, &chars_of("disabled|")) {
            match after_bar_vec(&line) {
                Some(x) => {
                    let val = to_lowercase_chars(&trim_vec(&x));
                    d = Some(eq_str(&val, "true") || eq_str(&val, "1"));
                },
                None => {},
            }
        }
        i = i + 1;
    }
    assert(all.subrange(0, ls@.len() as int) =~= all);
    (v, u, d)
}

/// The version, update URL and disabled flag of an add-on from the text of
/// its updater configuration (when there is one) and of its version files.
pub fn version_info_from_texts(cfg_text: Option<&str>, version_texts: &Vec<String>) -> (r: (
    Option<String>,
    Option<String>,
    Option<bool>,
))
    ensures
        (opt_string_view(r.0), opt_string_view(r.1), r.2) == version_info(
            match cfg_text {
                Some(c) => Some(c@),
                None => None,
            },
            string_views(version_texts@),
        ),
{
    let (cv, url, dis) = match cfg_text {
        Some(c) => cfg_info_exec(c),
        None => (None, None, None),
    };
    if cv.is_some() {
        return (cv, url, dis);
    }
    let ghost texts = string_views(version_texts@);
    let mut ls: Vec<String> = Vec::new();
    let mut i: usize = 0;
    while i < version_texts.len()
        invariant
            0 <= i <= version_texts.len(),
            texts == string_views(version_texts@),
            string_views(ls@) == version_file_lines(texts.subrange(0, i as int)),
        decreases version_texts.len() - i,
    {
        assert(texts.subrange(0, i + 1).drop_last() =~= texts.subrange(0, i as int));
        assert(texts.subrange(0, i + 1).last() == version_texts@[i as int]@);
        let raw = lines_of(&chars_of(version_texts[i].as_str()));
        let ghost rl = seqs(raw@);
        let ghost b = string_views(ls@);
        let mut k: usize = 0;
        while k < raw.len()
            invariant
                0 <= k <= raw.len(),
                rl == seqs(raw@),
                string_views(ls@) == b + trimmed_nonblank(rl.subrange(0, k as int)),
            decreases raw.len() - k,
        {
            assert(rl.subrange(0, k + 1).drop_last() =~= rl.subrange(0, k as int));
            assert(rl.subrange(0, k + 1).last() == raw@[k as int]@);
            let t = trim_vec(&raw[k]);
            if t.len() > 0 {
                let ghost bb = string_views(ls@);
                ls.push(string_of(&t));
                assert(string_views(ls@) =~= bb.push(t@));
            }
            k = k + 1;
        }
        assert(rl.subrange(0, raw@.len() as int) =~= rl);
        i = i + 1;
    }
    assert(texts.subrange(0, version_texts@.len() as int) =~= texts);
    let ghost lv = string_views(ls@);
    let mut words: Vec<String> = Vec::new();
    let mut j: usize = 0;
    while j < ls.len()
        invariant
            0 <= j <= ls.len(),
            lv == string_views(ls@),
            string_views(words@) == version_words(lv.subrange(0, j as int)),
        decreases ls.len() - j,
    {
        assert(lv.subrange(0, j + 1).drop_last() =~= lv.subrange(0, j as int));
        assert(lv.subrange(0, j + 1).last() == ls@[j as int]@);
        if has_version_pattern(ls[j].as_str()) {
            let toks = split_ws(&chars_of(ls[j].as_str()));
            let ghost tv = seqs(toks@);
            let ghost b = string_views(words@);
            let mut m: usize = 0;
            while m < toks.len()
                invariant
                    0 <= m <= toks.len(),
                    tv == seqs(toks@),
                    string_views(words@) == b + tv.subrange(0, m as int).filter(
                        |t: Seq<char>| version_pattern(t),
                    ),
                decreases toks.len() - m,
            {
                let ghost pre = tv.subrange(0, m as int);
                assert(tv.subrange(0, m + 1) =~= pre.push(tv[m as int]));
                assert(tv[m as int] == toks@[m as int]@);
                reveal(Seq::filter);
                assert(pre.push(tv[m as int]).drop_last() =~= pre);
                let w = string_of(&toks[m]);
                if has_version_pattern(w.as_str()) {
                    let ghost bb = string_views(words@);
                    words.push(w);
                    assert(string_views(words@) =~= bb.push(tv[m as int]));
                }
                m = m + 1;
            }
            assert(tv.subrange(0, toks@.len() as int) =~= tv);
        }
        j = j + 1;
    }
    assert(lv.subrange(0, ls@.len() as int) =~= lv);
    let words = dedup_ignore_list(words);
    if words.len() > 0 {
        let mut parts: Vec<Vec<char>> = Vec::new();
        let ghost wv = string_views(words@);
        let mut q: usize = 0;
        while q < words.len()
            invariant
                0 <= q <= words.len(),
                wv == string_views(words@),
                seqs(parts@) == wv.subrange(0, q as int),
            decreases words.len() - q,
        {
            let ghost b = seqs(parts@);
            parts.push(chars_of(words[q].as_str()));
            assert(seqs(parts@) =~= b.push(wv[q as int]));
            assert(wv.subrange(0, q + 1) =~= wv.subrange(0, q as int).push(wv[q as int]));
            q = q + 1;
        }
        assert(wv.subrange(0, words@.len() as int) =~= wv);
        let mut slash: Vec<char> = Vec::new();
        slash.push('/');
        proof {
            reveal_strlit("/");
        }
        assert(slash@ =~= "/"@);
        return (Some(string_of(&join_all(&parts, &slash))), url, dis);
    }
    if ls.len() > 0 {
        assert(lv[0] == ls@[0]@);
        match try_parse_digit_version(ls[0].as_str()) {
            Some(v) => (Some(v), url, dis),
            None => (Some(ls[0].clone()), url, dis),
        }
    } else {
        (None, url, dis)
    }
}

/// What a file found in an add-on folder is for the version: its updater
/// configuration (0), a version file (1), or neither (2).
pub open spec fn version_source_kind(name: Seq<char>) -> u8 {
    let low = lowercase(name);
    if low == "skunkcrafts_updater.cfg"@ {
        0
    } else if contains(low, "version"@) || low == "767.ini"@ || low == "757.ini"@ {
        1
    } else {
        2
    }
}

pub fn classify_version_source(file_name: &str) -> (r: u8)
    ensures
        r == version_source_kind(file_name@),
{
    let low = to_lowercase_chars(&chars_of(file_name));
    proof {
        reveal_strlit("version");
    }
    if eq_str(&low, "skunkcrafts_updater.cfg") {
        0
    } else if contains_exec(&low, &chars_of("version")) || eq_str(&low, "767.ini") || eq_str(
        &low,
        "757.ini",
    ) {
        1
    } else {
        2
    }
}

/// The first name whose lower-case form ends with the suffix.
pub open spec fn first_with_suffix(names: Seq<Seq<char>>, suffix: Seq<char>) -> Option<Seq<char>>
    decreases names.len(),
{
    if names.len() == 0 {
        None
    } else if ends_with(lowercase(names[0]), suffix) {
        Some(names[0])
    } else {
        first_with_suffix(names.drop_first(), suffix)
    }
}

fn first_with_suffix_exec(names: &Vec<String>, suffix: &str) -> (r: Option<String>)
    ensures
        match first_with_suffix(string_views(names@), suffix@) {
            Some(n) => r matches Some(x) && x@ == n,
            None => r is None,
        },
{
    let ghost ns = string_views(names@);
    let suf = chars_of(suffix);
    let mut i: usize = 0;
    assert(ns.subrange(0, ns.len() as int) =~= ns);
    while i < names.len()
        invariant
            0 <= i <= names.len(),
            ns == string_views(names@),
            suf@ == suffix@,
            first_with_suffix(ns, suffix@) == first_with_suffix(ns.subrange(i as int, ns.len() as int), suffix@),
        decreases names.len() - i,
    {
        let ghost rest = ns.subrange(i as int, ns.len() as int);
        assert(rest[0] == names@[i as int]@);
        assert(rest.drop_first() =~= ns.subrange(i + 1, ns.len() as int));
        if ends_with_exec(&to_lowercase_chars(&chars_of(names[i].as_str())), &suf) {
            return Some(names[i].clone());
        }
        i = i + 1;
    }
    assert(ns.subrange(i as int, ns.len() as int) =~= Seq::<Seq<char>>::empty());
    None
}

/// The aircraft file of a folder and whether it is enabled: the first
/// `.acf` file (enabled), else the first `.xfma` file (disabled); none
/// when the folder has neither, so it is no aircraft.
pub open spec fn aircraft_file_choice(file_names: Seq<Seq<char>>) -> Option<(Seq<char>, bool)> {
    match first_with_suffix(file_names, ".acf"@) {
        Some(a) => Some((a, true)),
        None => match first_with_suffix(file_names, ".xfma"@) {
            Some(x) => Some((x, false)),
            None => None,
        },
    }
}

pub fn aircraft_files_choice(file_names: &Vec<String>) -> (r: Option<(String, bool)>)
    ensures
        match aircraft_file_choice(string_views(file_names@)) {
            Some((n, e)) => r matches Some((x, b)) && x@ == n && b == e,
            None => r is None,
        },
{
    match first_with_suffix_exec(file_names, ".acf") {
        Some(a) => Some((a, true)),
        None => match first_with_suffix_exec(file_names, ".xfma") {
            Some(x) => Some((x, false)),
            None => None,
        },
    }
}

/// Some name, lower-cased, holds the text.
pub open spec fn some_holds(names: Seq<Seq<char>>, part: Seq<char>) -> bool {
    exists|i: int| 0 <= i < names.len() && contains(lowercase(#[trigger] names[i]), part)
}

/// Some name, lower-cased, is one of the two texts.
pub open spec fn some_is(names: Seq<Seq<char>>, a: Seq<char>, b: Seq<char>) -> bool {
    exists|i: int| 0 <= i < names.len() && (lowercase(#[trigger] names[i]) == a || lowercase(names[i]) == b)
}

/// The platforms a plugin is built for: from its plugin file paths
/// (holding `win`, `mac`, `lin`) and its platform folders (`win`,
/// `win_x64`, ...); `multi` for two or more, else the one found, else
/// `unknown`.
pub open spec fn plugin_platform_of(xpl_files: Seq<Seq<char>>, dirs: Seq<Seq<char>>) -> Seq<char> {
    let win = some_holds(xpl_files, "win"@) || some_is(dirs, "win"@, "win_x64"@);
    let mac = some_holds(xpl_files, "mac"@) || some_is(dirs, "mac"@, "mac_x64"@);
    let lin = some_holds(xpl_files, "lin"@) || some_is(dirs, "lin"@, "lin_x64"@);
    let count = (if win { 1int } else { 0 }) + (if mac { 1int } else { 0 }) + (if lin { 1int } else { 0 });
    if count >= 2 {
        "multi"@
    } else if win {
        "win"@
    } else if mac {
        "mac"@
    } else if lin {
        "lin"@
    } else {
        "unknown"@
    }
}

fn some_holds_exec(names: &Vec<String>, part: &str) -> (r: bool)
    ensures
        r == some_holds(string_views(names@), part@),
{
    let ghost ns = string_views(names@);
    let p = chars_of(part);
    let mut i: usize = 0;
    while i < names.len()
        invariant
            0 <= i <= names.len(),
            ns == string_views(names@),
            p@ == part@,
            forall|j: int| 0 <= j < i ==> !contains(lowercase(#[trigger] ns[j]), part@),
        decreases names.len() - i,
    {
        assert(ns[i as int] == names@[i as int]@);
        if contains_exec(&to_lowercase_chars(&chars_of(names[i].as_str())), &p) {
            return true;
        }
        i = i + 1;
    }
    false
}

fn some_is_exec(names: &Vec<String>, a: &str, b: &str) -> (r: bool)
    ensures
        r == some_is(string_views(names@), a@, b@),
{
    let ghost ns = string_views(names@);
    let mut i: usize = 0;
    while i < names.len()
        invariant
            0 <= i <= names.len(),
            ns == string_views(names@),
            forall|j: int| 0 <= j < i ==> !(lowercase(#[trigger] ns[j]) == a@ || lowercase(ns[j]) == b@),
        decreases names.len() - i,
    {
        assert(ns[i as int] == names@[i as int]@);
        let low = to_lowercase_chars(&chars_of(names[i].as_str()));
        if eq_str(&low, a) || eq_str(&low, b) {
            return true;
        }
        i = i + 1;
    }
    false
}

pub fn detect_plugin_platform(xpl_files: &Vec<String>, dir_names: &Vec<String>) -> (r: String)
    ensures
        r@ == plugin_platform_of(string_views(xpl_files@), string_views(dir_names@)),
{
    let win = some_holds_exec(xpl_files, "win") || some_is_exec(dir_names, "win", "win_x64");
    let mac = some_holds_exec(xpl_files, "mac") || some_is_exec(dir_names, "mac", "mac_x64");
    let lin = some_holds_exec(xpl_files, "lin") || some_is_exec(dir_names, "lin", "lin_x64");
    let count: u8 = (if win { 1 } else { 0 }) + (if mac { 1 } else { 0 }) + (if lin { 1 } else { 0 });
    let name = if count >= 2 {
        "multi"
    } else if win {
        "win"
    } else if mac {
        "mac"
    } else if lin {
        "lin"
    } else {
        "unknown"
    };
    string_of(&chars_of(name))
}

/// The extension of a file name as `Path::extension` gives it: the text
/// after the last `.`, unless that dot starts the name.
pub open spec fn extension_of(name: Seq<char>) -> Option<Seq<char>>
    decreases name.len(),
{
    last_dot(name, name.len() as int)
}

/// The text after the last `.` before `end` (not at the start).
pub open spec fn last_dot(name: Seq<char>, end: int) -> Option<Seq<char>>
    decreases end,
{
    if end <= 1 || end > name.len() {
        None
    } else if name[end - 1] == '.' {
        if end - 1 == 0 {
            None
        } else {
            Some(name.subrange(end, name.len() as int))
        }
    } else {
        last_dot(name, end - 1)
    }
}

pub fn file_extension(name: &str) -> (r: Option<String>)
    ensures
        match extension_of(name@) {
            Some(e) => r matches Some(x) && x@ == e,
            None => r is None,
        },
{
    let v = chars_of(name);
    let n = v.len();
    let mut end: usize = n;
    while end > 1
        invariant
            0 <= end <= n,
            n == v@.len(),
            v@ == name@,
            last_dot(v@, n as int) == last_dot(v@, end as int),
        decreases end,
    {
        if v[end - 1] == '.' {
            return Some(string_of(&slice_vec(&v, end, n)));
        }
        end = end - 1;
    }
    None
}

/// Whether a file's extension is the given one, ignoring ASCII case.
pub fn has_extension(name: &str, ext: &str) -> (r: bool)
    ensures
        r == (extension_of(name@) matches Some(e) && crate::text::eq_ignore_ascii_case(e, ext@)),
{
    match file_extension(name) {
        Some(e) => crate::text::eq_ignore_ascii_case_exec(&chars_of(e.as_str()), &chars_of(ext)),
        None => false,
    }
}

/// What toggling an add-on does: with enabled files (`.acf`, `.xpl`) they
/// are disabled and the add-on ends disabled; else with disabled files
/// (`.xfma`, `.xfmp`) they are enabled; else it fails.
pub open spec fn toggle_outcome(item_type: Seq<char>, enabled_files: nat, disabled_files: nat) -> Result<
    bool,
    Seq<char>,
> {
    if item_type == "aircraft"@ {
        if enabled_files > 0 {
            Ok(false)
        } else if disabled_files > 0 {
            Ok(true)
        } else {
            Err("No .acf or .xfma files found in aircraft folder"@)
        }
    } else if item_type == "plugin"@ {
        if enabled_files > 0 {
            Ok(false)
        } else if disabled_files > 0 {
            Ok(true)
        } else {
            Err("No .xpl or .xfmp files found in plugin folder"@)
        }
    } else {
        Err("Unknown item type: "@ + item_type)
    }
}

pub fn toggle_new_state(item_type: &str, enabled_files: usize, disabled_files: usize) -> (r: Result<
    bool,
    String,
>)
    ensures
        match toggle_outcome(item_type@, enabled_files as nat, disabled_files as nat) {
            Ok(b) => r matches Ok(x) && x == b,
            Err(e) => r matches Err(x) && x@ == e,
        },
{
    let t = chars_of(item_type);
    if eq_str(&t, "aircraft") || eq_str(&t, "plugin") {
        if enabled_files > 0 {
            Ok(false)
        } else if disabled_files > 0 {
            Ok(true)
        } else if eq_str(&t, "aircraft") {
            Err(string_of(&chars_of("No .acf or .xfma files found in aircraft folder")))
        } else {
            Err(string_of(&chars_of("No .xpl or .xfmp files found in plugin folder")))
        }
    } else {
        let mut m = chars_of("Unknown item type: ");
        push_all(&mut m, &t);
        Err(string_of(&m))
    }
}

/// A script's state from its extension (lower-cased): `lua` enabled,
/// `xfml` disabled, anything else no script.
pub open spec fn script_state(name: Seq<char>) -> Option<bool> {
    match extension_of(name) {
        Some(e) => if lowercase(e) == "lua"@ {
            Some(true)
        } else if lowercase(e) == "xfml"@ {
            Some(false)
        } else {
            None
        },
        None => None,
    }
}

pub fn lua_script_state(file_name: &str) -> (r: Option<bool>)
    ensures
        r == script_state(file_name@),
{
    match file_extension(file_name) {
        Some(e) => {
            let low = to_lowercase_chars(&chars_of(e.as_str()));
            if eq_str(&low, "lua") {
                Some(true)
            } else if eq_str(&low, "xfml") {
                Some(false)
            } else {
                None
            }
        },
        None => None,
    }
}

/// The lower-cased extension of a name, empty when it has none.
pub open spec fn lower_extension(name: Seq<char>) -> Seq<char> {
    match extension_of(name) {
        Some(e) => lowercase(e),
        None => Seq::empty(),
    }
}

fn lower_extension_vec(name: &str) -> (r: Vec<char>)
    ensures
        r@ == lower_extension(name@),
{
    match file_extension(name) {
        Some(e) => to_lowercase_chars(&chars_of(e.as_str())),
        None => Vec::new(),
    }
}

/// Toggling a script renames `.lua` to `.xfml` (disabling it) and back;
/// other extensions are refused.
pub fn lua_toggle_target(file_name: &str) -> (r: Result<bool, String>)
    ensures
        lower_extension(file_name@) == "lua"@ ==> (r matches Ok(b) && !b),
        lower_extension(file_name@) == "xfml"@ ==> (r matches Ok(b) && b),
        lower_extension(file_name@) != "lua"@ && lower_extension(file_name@) != "xfml"@ ==> (r matches Err(
            e,
        ) && e@ == "Unsupported file extension: "@ + lower_extension(file_name@)),
{
    let ext = lower_extension_vec(file_name);
    proof {
        reveal_strlit("lua");
        reveal_strlit("xfml");
        assert("lua"@.len() == 3);
        assert("xfml"@.len() == 4);
        assert("lua"@ != "xfml"@);
    }
    if eq_str(&ext, "lua") {
        Ok(false)
    } else if eq_str(&ext, "xfml") {
        Ok(true)
    } else {
        let mut m = chars_of("Unsupported file extension: ");
        push_all(&mut m, &ext);
        Err(string_of(&m))
    }
}

/// The name a script gets when toggled, with whether it is then enabled:
/// its stem with `.xfml` for a `.lua` script, with `.lua` for an `.xfml`
/// one (extensions compared without regard to case).
pub open spec fn toggled_script(name: Seq<char>) -> Option<(bool, Seq<char>)> {
    if lower_extension(name) == "lua"@ {
        Some((false, file_stem_of(name) + ".xfml"@))
    } else if lower_extension(name) == "xfml"@ {
        Some((true, file_stem_of(name) + ".lua"@))
    } else {
        None
    }
}

/// Toggles a script: whether it is then enabled and its new name, or the
/// error of `lua_toggle_target` for another extension.
pub fn lua_toggled_name(file_name: &str) -> (r: Result<(bool, String), String>)
    ensures
        match toggled_script(file_name@) {
            Some((b, n)) => r matches Ok((x, m)) && x == b && m@ == n,
            None => r matches Err(e) && e@ == "Unsupported file extension: "@ + lower_extension(
                file_name@,
            ),
        },
{
    proof {
        reveal_strlit("lua");
        reveal_strlit("xfml");
        assert("lua"@.len() == 3);
        assert("xfml"@.len() == 4);
        assert("lua"@ != "xfml"@);
    }
    let enable = lua_toggle_target(file_name)?;
    let mut name = chars_of(file_stem(file_name).as_str());
    if enable {
        push_all(&mut name, &chars_of(".lua"));
    } else {
        push_all(&mut name, &chars_of(".xfml"));
    }
    Ok((enable, string_of(&name)))
}

/// Only script files may be deleted as scripts.
pub fn lua_delete_check(file_name: &str) -> (r: Result<(), String>)
    ensures
        (lower_extension(file_name@) == "lua"@ || lower_extension(file_name@) == "xfml"@) ==> r is Ok,
        !(lower_extension(file_name@) == "lua"@ || lower_extension(file_name@) == "xfml"@) ==> (r matches Err(
            e,
        ) && e@ == "Not a script file: "@ + file_name@),
{
    let ext = lower_extension_vec(file_name);
    if eq_str(&ext, "lua") || eq_str(&ext, "xfml") {
        Ok(())
    } else {
        let mut m = chars_of("Not a script file: ");
        push_all(&mut m, &chars_of(file_name));
        Err(string_of(&m))
    }
}

/// The name a file is shown with: without its extension.
pub open spec fn file_stem_of(name: Seq<char>) -> Seq<char> {
    match extension_of(name) {
        Some(e) => name.subrange(0, name.len() - e.len() - 1),
        None => name,
    }
}

pub fn file_stem(name: &str) -> (r: String)
    ensures
        r@ == file_stem_of(name@),
{
    let v = chars_of(name);
    let n = v.len();
    let mut end: usize = n;
    while end > 1
        invariant
            0 <= end <= n,
            n == v@.len(),
            v@ == name@,
            last_dot(v@, n as int) == last_dot(v@, end as int),
        decreases end,
    {
        if v[end - 1] == '.' {
            assert(v@.subrange(end as int, n as int).len() == n - end);
            return string_of(&slice_vec(&v, 0, end - 1));
        }
        end = end - 1;
    }
    string_of(&v)
}

/// The configuration text with its disabled flag set: the first
/// `disabled|` line (trimmed, any case) replaced, or such a line appended;
/// lines joined by line feeds.
pub open spec fn cfg_with_disabled(content: Seq<char>, disabled: bool) -> Seq<char> {
    let ls = lines(content);
    let line = "disabled|"@ + if disabled {
        "true"@
    } else {
        "false"@
    };
    let updated = match disabled_line_index(ls, 0) {
        Some(i) => ls.update(i, line),
        None => ls.push(line),
    };
    join(updated, seq!['\n'])
}

pub open spec fn disabled_line_index(ls: Seq<Seq<char>>, k: int) -> Option<int>
    decreases ls.len() - k,
{
    if k < 0 || k >= ls.len() {
        None
    } else if starts_with(lowercase(trim(ls[k])), "disabled|"@) {
        Some(k)
    } else {
        disabled_line_index(ls, k + 1)
    }
}

fn find_disabled_line(ls: &Vec<Vec<char>>, start: usize) -> (r: Option<usize>)
    requires
        start <= ls.len(),
    ensures
        match r {
            Some(i) => disabled_line_index(seqs(ls@), start as int) == Some(i as int) && i < ls@.len(),
            None => disabled_line_index(seqs(ls@), start as int) is None,
        },
    decreases ls.len() - start,
{
    if start == ls.len() {
        return None;
    }
    let ghost all = seqs(ls@);
    assert(all[start as int] == ls@[start as int]@);
    let marker = chars_of("disabled|");
    if starts_with_exec(&to_lowercase_chars(&trim_vec(&ls[start])), &marker) {
        Some(start)
    } else {
        find_disabled_line(ls, start + 1)
    }
}

pub fn set_cfg_disabled_text(content: &str, disabled: bool) -> (r: String)
    ensures
        r@ == cfg_with_disabled(content@, disabled),
{
    let mut ls = lines_of(&chars_of(content));
    let ghost all = seqs(ls@);
    let line = if disabled {
        chars_of("disabled|true")
    } else {
        chars_of("disabled|false")
    };
    proof {
        reveal_strlit("disabled|true");
        reveal_strlit("disabled|false");
        reveal_strlit("disabled|");
        reveal_strlit("true");
        reveal_strlit("false");
    }
    assert(line@ =~= "disabled|"@ + if disabled {
        "true"@
    } else {
        "false"@
    });
    let ghost lv = line@;
    match find_disabled_line(&ls, 0) {
        Some(i) => {
            ls.set(i, line);
            assert(seqs(ls@) =~= all.update(i as int, lv));
        },
        None => {
            ls.push(line);
            assert(seqs(ls@) =~= all.push(lv));
        },
    }
    let mut nl: Vec<char> = Vec::new();
    nl.push('\n');
    assert(nl@ =~= seq!['\n']);
    string_of(&join_all(&ls, &nl))
}

/// A livery folder is listed unless hidden (its name starts with `.`).
pub fn is_listed_livery_folder(name: &str) -> (r: bool)
    ensures
        r == !(name@.len() > 0 && name@[0] == '.'),
{
    let v = chars_of(name);
    !(v.len() > 0 && v[0] == '.')
}

/// A livery's icon is the file whose lower-cased name ends with
/// `_icon11.png`.
pub fn is_livery_icon(file_name: &str) -> (r: bool)
    ensures
        r == ends_with(lowercase(file_name@), "_icon11.png"@),
{
    ends_with_exec(&to_lowercase_chars(&chars_of(file_name)), &chars_of("_icon11.png"))
}

} // verus!
