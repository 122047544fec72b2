//! What writing credentials into a configuration profile promises: reading
//! the profile back gives the login and key that were written.

use vstd::prelude::*;
use crate::text::{
    find, find_after, is_ws, lemma_find_after, lemma_trim_drop_ws_last, occurs_at, trim, trim_char, trim_end,
    trim_end_char, trim_start, trim_start_char,
};
use crate::text::{
    all_ascii, ascii_lower_seq, join, lemma_lines_plain, lemma_split_join, lemma_split_pieces_nonempty,
    lemma_split_push_line_feed, lines, lowercase, no_line_feed, split_pieces, strip_cr,
};
use crate::xupdater::{
    cfg_comment_line, cfg_line_parts, cfg_profile_scan, cfg_profile_step, cfg_value, credential_scan,
    credential_step, credentials_text, default_host, default_separator, encoded_cfg_value, host_keys,
    license_keys, login_keys, one_of, opt_view, unescaped, cfg_profile_matches, CfgProfileState,
    CredentialState, XUpdaterProfile,
};

verus! {

/// `trim(s)` is `s` without a white-space prefix and suffix.
proof fn lemma_trim_start_shape(s: Seq<char>)
    ensures
        exists|a: int|
            0 <= a <= s.len() && trim_start(s) == s.subrange(a, s.len() as int) && (forall|j: int|
                0 <= j < a ==> is_ws(#[trigger] s[j])) && (a < s.len() ==> !is_ws(s[a])),
    decreases s.len(),
{
    if s.len() > 0 && is_ws(s[0]) {
        let t = s.drop_first();
        lemma_trim_start_shape(t);
        let a = choose|a: int|
            0 <= a <= t.len() && trim_start(t) == t.subrange(a, t.len() as int) && (forall|j: int|
                0 <= j < a ==> is_ws(#[trigger] t[j])) && (a < t.len() ==> !is_ws(t[a]));
        assert(t.subrange(a, t.len() as int) =~= s.subrange(a + 1, s.len() as int));
        assert forall|j: int| 0 <= j < a + 1 implies is_ws(#[trigger] s[j]) by {
            if j > 0 {
                assert(s[j] == t[j - 1]);
            }
        }
        if a + 1 < s.len() {
            assert(s[a + 1] == t[a]);
        }
    } else {
        assert(s.subrange(0, s.len() as int) =~= s);
    }
}

proof fn lemma_trim_end_shape(s: Seq<char>)
    ensures
        exists|b: int|
            0 <= b <= s.len() && trim_end(s) == s.subrange(0, b) && (forall|j: int|
                b <= j < s.len() ==> is_ws(#[trigger] s[j])) && (b > 0 ==> !is_ws(s[b - 1])),
    decreases s.len(),
{
    if s.len() > 0 && is_ws(s.last()) {
        let t = s.drop_last();
        lemma_trim_end_shape(t);
        let b = choose|b: int|
            0 <= b <= t.len() && trim_end(t) == t.subrange(0, b) && (forall|j: int|
                b <= j < t.len() ==> is_ws(#[trigger] t[j])) && (b > 0 ==> !is_ws(t[b - 1]));
        assert(t.subrange(0, b) =~= s.subrange(0, b));
        assert forall|j: int| b <= j < s.len() implies is_ws(#[trigger] s[j]) by {
            if j < s.len() - 1 {
                assert(s[j] == t[j]);
            }
        }
        if b > 0 {
            assert(s[b - 1] == t[b - 1]);
        }
    } else {
        assert(s.subrange(0, s.len() as int) =~= s);
    }
}

/// `trim(s)` is the part `a..b` of `s`, with only white space around it and
/// none at its ends.
pub proof fn lemma_trim_shape(s: Seq<char>)
    ensures
        exists|a: int, b: int|
            0 <= a <= b <= s.len() && trim(s) == s.subrange(a, b) && (forall|j: int|
                0 <= j < a ==> is_ws(#[trigger] s[j])) && (forall|j: int|
                b <= j < s.len() ==> is_ws(#[trigger] s[j])) && (a < b ==> !is_ws(s[a]) && !is_ws(
                s[b - 1],
            )),
{
    lemma_trim_start_shape(s);
    let a = choose|a: int|
        0 <= a <= s.len() && trim_start(s) == s.subrange(a, s.len() as int) && (forall|j: int|
            0 <= j < a ==> is_ws(#[trigger] s[j])) && (a < s.len() ==> !is_ws(s[a]));
    let u = s.subrange(a, s.len() as int);
    lemma_trim_end_shape(u);
    let bu = choose|b: int|
        0 <= b <= u.len() && trim_end(u) == u.subrange(0, b) && (forall|j: int|
            b <= j < u.len() ==> is_ws(#[trigger] u[j])) && (b > 0 ==> !is_ws(u[b - 1]));
    let b = a + bu;
    assert(u.subrange(0, bu) =~= s.subrange(a, b));
    assert forall|j: int| b <= j < s.len() implies is_ws(#[trigger] s[j]) by {
        assert(s[j] == u[j - a]);
    }
    if a < b {
        assert(s[a] == u[0]);
        assert(s[b - 1] == u[bu - 1]);
    }
}

/// A text with no white space at either end is its own trim.
pub proof fn lemma_trim_plain_ends(s: Seq<char>)
    requires
        s.len() > 0,
        !is_ws(s[0]),
        !is_ws(s.last()),
    ensures
        trim(s) == s,
{
    assert(trim_start(s) == s);
}

/// Trimming twice is trimming once.
pub proof fn lemma_trim_idempotent(s: Seq<char>)
    ensures
        trim(trim(s)) == trim(s),
{
    lemma_trim_shape(s);
    let t = trim(s);
    if t.len() > 0 {
        let (a, b) = choose|a: int, b: int|
            0 <= a <= b <= s.len() && trim(s) == s.subrange(a, b) && (forall|j: int|
                0 <= j < a ==> is_ws(#[trigger] s[j])) && (forall|j: int|
                b <= j < s.len() ==> is_ws(#[trigger] s[j])) && (a < b ==> !is_ws(s[a]) && !is_ws(
                s[b - 1],
            ));
        assert(t[0] == s[a]);
        assert(t.last() == s[b - 1]);
        lemma_trim_plain_ends(t);
    } else {
        assert(trim_start(t) == t);
    }
}


proof fn lemma_occurs_char(s: Seq<char>, c: char, j: int)
    ensures
        occurs_at(s, seq![c], j) <==> (0 <= j < s.len() && s[j] == c),
{
    if 0 <= j < s.len() && s[j] == c {
        assert(s.subrange(j, j + 1) =~= seq![c]);
    }
    if occurs_at(s, seq![c], j) {
        assert(s.subrange(j, j + 1)[0] == s[j]);
    }
}

/// A character that is not white space is found in the trimmed text where
/// it is found in the text, moved by the trimmed prefix.
proof fn lemma_find_char_in_trim(s: Seq<char>, c: char, a: int, b: int)
    requires
        0 <= a <= b <= s.len(),
        trim(s) == s.subrange(a, b),
        forall|j: int| 0 <= j < a ==> is_ws(#[trigger] s[j]),
        forall|j: int| b <= j < s.len() ==> is_ws(#[trigger] s[j]),
        !is_ws(c),
    ensures
        match find(s, seq![c]) {
            Some(i) => a <= i < b && find(trim(s), seq![c]) == Some(i - a),
            None => find(trim(s), seq![c]) is None,
        },
{
    let t = trim(s);
    lemma_find_after(s, seq![c], 0);
    lemma_find_after(t, seq![c], 0);
    match find(s, seq![c]) {
        Some(i) => {
            lemma_occurs_char(s, c, i);
            assert(a <= i < b) by {
                if i < a || i >= b {
                    assert(is_ws(s[i]));
                }
            }
            lemma_occurs_char(t, c, i - a);
            assert(t[i - a] == s[i]);
            match find(t, seq![c]) {
                Some(k) => {
                    lemma_occurs_char(t, c, k);
                    assert(s[k + a] == t[k]);
                    lemma_occurs_char(s, c, k + a);
                    if k < i - a {
                        assert(!occurs_at(s, seq![c], k + a));
                    }
                    if k > i - a {
                        assert(!occurs_at(t, seq![c], i - a));
                    }
                },
                None => {
                    assert(!occurs_at(t, seq![c], i - a));
                },
            }
        },
        None => {
            match find(t, seq![c]) {
                Some(k) => {
                    lemma_occurs_char(t, c, k);
                    assert(s[k + a] == t[k]);
                    lemma_occurs_char(s, c, k + a);
                    assert(!occurs_at(s, seq![c], k + a));
                },
                None => {},
            }
        },
    }
}

/// A line and its trimmed form split alike: the same separator, and keys
/// that trim to the same text.
pub proof fn lemma_parts_of_trim(raw: Seq<char>)
    ensures
        match cfg_line_parts(raw) {
            Some((k, _v, sep)) => cfg_line_parts(trim(raw)) matches Some((k2, _v2, sep2)) && sep2 == sep && trim(
                k2,
            ) == trim(k),
            None => cfg_line_parts(trim(raw)) is None,
        },
{
    lemma_trim_shape(raw);
    let (a, b) = choose|a: int, b: int|
        0 <= a <= b <= raw.len() && trim(raw) == raw.subrange(a, b) && (forall|j: int|
            0 <= j < a ==> is_ws(#[trigger] raw[j])) && (forall|j: int|
            b <= j < raw.len() ==> is_ws(#[trigger] raw[j])) && (a < b ==> !is_ws(raw[a]) && !is_ws(
            raw[b - 1],
        ));
    lemma_find_char_in_trim(raw, '|', a, b);
    lemma_find_char_in_trim(raw, '=', a, b);
    let t = trim(raw);
    let bar = find(raw, seq!['|']);
    let eq = find(raw, seq!['=']);
    let i = match bar {
        Some(i) => i,
        None => match eq {
            Some(i) => i,
            None => -1,
        },
    };
    if i >= 0 {
        let k = raw.subrange(0, i);
        let k2 = t.subrange(0, i - a);
        assert(k2 =~= raw.subrange(a, i));
        assert forall|j: int| 0 <= j < a implies is_ws(#[trigger] k[j]) by {
            assert(k[j] == raw[j]);
        }
        crate::text::lemma_trim_start_skip(k, a);
        assert(k.subrange(a, k.len() as int) =~= k2);
        assert(trim_start(k) == trim_start(k2));
    }
}


/// A login or key that a profile gives back as written: not empty, without
/// white space or quotes at its ends, and without line breaks, `|` or `\`.
pub open spec fn plain_credential(v: Seq<char>) -> bool {
    &&& v.len() > 0
    &&& !is_ws(v[0]) && !is_ws(v.last())
    &&& v[0] != '"' && v[0] != '\'' && v.last() != '"' && v.last() != '\''
    &&& forall|i: int|
        0 <= i < v.len() ==> #[trigger] v[i] != '\n' && v[i] != '\r' && v[i] != '|' && v[i] != '\\'
}

/// Escapes in the text come whole: every `\\` has a character after it.
pub open spec fn escapes_complete(x: Seq<char>) -> bool
    decreases x.len(),
{
    if x.len() == 0 {
        true
    } else if x[0] == '\\' {
        x.len() >= 2 && escapes_complete(x.subrange(2, x.len() as int))
    } else {
        escapes_complete(x.drop_first())
    }
}

proof fn lemma_unescaped_concat(x: Seq<char>, y: Seq<char>)
    requires
        escapes_complete(x),
    ensures
        unescaped(x + y) == unescaped(x) + unescaped(y),
    decreases x.len(),
{
    if x.len() == 0 {
        assert(x + y =~= y);
        assert(unescaped(x) + unescaped(y) =~= unescaped(y));
    } else if x[0] == '\\' {
        let r = x.subrange(2, x.len() as int);
        lemma_unescaped_concat(r, y);
        assert((x + y).subrange(2, (x + y).len() as int) =~= r + y);
        assert((x + y)[0] == x[0] && (x + y)[1] == x[1]);
        let c = x[1];
        let m = if c == 'n' {
            '\n'
        } else if c == 'r' {
            '\r'
        } else if c == 't' {
            '\t'
        } else {
            c
        };
        assert(unescaped(x) == seq![m] + unescaped(r));
        assert(unescaped(x + y) == seq![m] + unescaped(r + y));
        assert(seq![m] + (unescaped(r) + unescaped(y)) =~= (seq![m] + unescaped(r)) + unescaped(y));
    } else {
        let r = x.drop_first();
        lemma_unescaped_concat(r, y);
        assert((x + y).drop_first() =~= r + y);
        assert((x + y)[0] == x[0]);
        assert(seq![x[0]] + (unescaped(r) + unescaped(y)) =~= (seq![x[0]] + unescaped(r)) + unescaped(y));
    }
}

proof fn lemma_escapes_complete_concat(x: Seq<char>, y: Seq<char>)
    requires
        escapes_complete(x),
        escapes_complete(y),
    ensures
        escapes_complete(x + y),
    decreases x.len(),
{
    if x.len() == 0 {
        assert(x + y =~= y);
    } else if x[0] == '\\' {
        let r = x.subrange(2, x.len() as int);
        lemma_escapes_complete_concat(r, y);
        assert((x + y).subrange(2, (x + y).len() as int) =~= r + y);
        assert((x + y)[0] == x[0]);
    } else {
        let r = x.drop_first();
        lemma_escapes_complete_concat(r, y);
        assert((x + y).drop_first() =~= r + y);
        assert((x + y)[0] == x[0]);
    }
}

proof fn lemma_no_backslash_unescaped(v: Seq<char>)
    requires
        forall|i: int| 0 <= i < v.len() ==> #[trigger] v[i] != '\\',
    ensures
        unescaped(v) == v,
        escapes_complete(v),
    decreases v.len(),
{
    if v.len() > 0 {
        let r = v.drop_first();
        assert forall|i: int| 0 <= i < r.len() implies #[trigger] r[i] != '\\' by {
            assert(r[i] == v[i + 1]);
        }
        lemma_no_backslash_unescaped(r);
        assert(seq![v[0]] + r =~= v);
    }
}

/// Encoding a value for `=` gives complete escapes that resolve to the
/// value; its last character is the value's, its first is the value's or a
/// backslash.
proof fn lemma_encoded_equals(v: Seq<char>)
    ensures
        escapes_complete(encoded_cfg_value(v, '=')),
        unescaped(encoded_cfg_value(v, '=')) == v,
        v.len() > 0 ==> encoded_cfg_value(v, '=').len() > 0 && encoded_cfg_value(v, '=').last() == v.last() && (
        encoded_cfg_value(v, '=')[0] == v[0] || encoded_cfg_value(v, '=')[0] == '\\'),
        forall|i: int|
            0 <= i < encoded_cfg_value(v, '=').len() ==> (#[trigger] encoded_cfg_value(v, '=')[i] == '\\'
                || exists|j: int| 0 <= j < v.len() && v[j] == encoded_cfg_value(v, '=')[i]),
    decreases v.len(),
{
    let e = encoded_cfg_value(v, '=');
    if v.len() == 0 {
        assert(escapes_complete(e));
    } else {
        let p = v.drop_last();
        lemma_encoded_equals(p);
        let ep = encoded_cfg_value(p, '=');
        let c = v.last();
        let tail = if c == '\\' || c == ':' || c == '=' {
            seq!['\\', c]
        } else {
            seq![c]
        };
        assert(e == ep + tail);
        assert(escapes_complete(tail)) by {
            reveal_with_fuel(escapes_complete, 3);
            if c == '\\' || c == ':' || c == '=' {
                assert(tail[0] == '\\');
                assert(tail.subrange(2, 2) =~= Seq::<char>::empty());
            } else {
                assert(tail[0] == c);
                assert(tail.drop_first() =~= Seq::<char>::empty());
            }
        }
        lemma_escapes_complete_concat(ep, tail);
        lemma_unescaped_concat(ep, tail);
        assert(unescaped(tail) == seq![c]) by {
            if tail.len() == 2 {
                assert(tail.subrange(2, 2) =~= Seq::<char>::empty());
                assert(unescaped(tail) == seq![c] + unescaped(Seq::<char>::empty()));
            } else {
                assert(tail.drop_first() =~= Seq::<char>::empty());
                assert(unescaped(tail) == seq![c] + unescaped(Seq::<char>::empty()));
            }
        }
        assert(p.push(c) =~= v);
        assert(p + seq![c] =~= v);
        if p.len() > 0 {
            assert(e[0] == ep[0]);
            assert(p[0] == v[0]);
        } else {
            assert(ep.len() == 0);
            assert(e =~= tail);
        }
        assert forall|i: int| 0 <= i < e.len() implies (#[trigger] e[i] == '\\' || exists|j: int|
            0 <= j < v.len() && v[j] == e[i]) by {
            if i < ep.len() {
                assert(e[i] == ep[i]);
                if ep[i] != '\\' {
                    let j = choose|j: int| 0 <= j < p.len() && p[j] == ep[i];
                    assert(v[j] == p[j]);
                }
            } else {
                if e[i] != '\\' {
                    assert(e[i] == c);
                    assert(v[v.len() - 1] == c);
                }
            }
        }
    }
}

proof fn lemma_trim_char_plain(s: Seq<char>, c: char)
    requires
        s.len() > 0,
        s[0] != c,
        s.last() != c,
    ensures
        trim_char(s, c) == s,
{
    assert(trim_start_char(s, c) == s);
}

/// A plain credential written with either separator reads back as itself.
pub proof fn lemma_credential_value_round_trip(v: Seq<char>, sep: char)
    requires
        plain_credential(v),
        sep == '|' || sep == '=',
    ensures
        cfg_value(encoded_cfg_value(v, sep)) == v,
{
    let e = encoded_cfg_value(v, sep);
    if sep == '=' {
        lemma_encoded_equals(v);
    } else {
        assert(e == v);
        lemma_no_backslash_unescaped(v);
    }
    assert(e.len() > 0 && e.last() == v.last() && (e[0] == v[0] || e[0] == '\\'));
    assert(!is_ws('\\'));
    lemma_trim_plain_ends(e);
    lemma_trim_char_plain(e, '"');
    lemma_trim_char_plain(e, '\'');
    lemma_no_backslash_unescaped(v);
    assert(unescaped(e) == v);
    lemma_trim_plain_ends(v);
}


/// A value with no white space and no quote at either end (or empty).
pub open spec fn trimmed_unquoted(v: Seq<char>) -> bool {
    v.len() == 0 || (!is_ws(v[0]) && !is_ws(v.last()) && v[0] != '"' && v[0] != '\'' && v.last()
        != '"' && v.last() != '\'')
}

/// A value written after `=` is read back unchanged, whatever it holds
/// (backslashes, `:`, `=` and `|` included), and after `|` it is written
/// as it is.
pub proof fn law_cfg_value_round_trip(v: Seq<char>)
    requires
        trimmed_unquoted(v),
    ensures
        cfg_value(encoded_cfg_value(v, '=')) == v,
        encoded_cfg_value(v, '|') == v,
{
    let e = encoded_cfg_value(v, '=');
    lemma_encoded_equals(v);
    if v.len() == 0 {
        assert(e.len() == 0);
        assert(trim_start(e) == e);
        assert(trim_start_char(e, '"') == e);
        assert(trim_start_char(e, '\'') == e);
        assert(cfg_value(e) == Seq::<char>::empty());
        assert(v =~= Seq::<char>::empty());
    } else {
        assert(e.len() > 0 && e.last() == v.last() && (e[0] == v[0] || e[0] == '\\'));
        assert(!is_ws('\\'));
        lemma_trim_plain_ends(e);
        lemma_trim_char_plain(e, '"');
        lemma_trim_char_plain(e, '\'');
        assert(unescaped(e) == v);
        lemma_trim_plain_ends(v);
    }
}

/// The setting a profile reader takes from a line: its key (trimmed and
/// lower-cased) and value, when the line is not a comment, splits, and has
/// a non-empty value.
pub open spec fn line_setting(line: Seq<char>) -> Option<(Seq<char>, Seq<char>)> {
    let t = trim(line);
    if cfg_comment_line(t) {
        None
    } else {
        match cfg_line_parts(t) {
            Some((k, v, _sep)) => if cfg_value(v).len() > 0 {
                Some((lowercase(trim(k)), cfg_value(v)))
            } else {
                None
            },
            None => None,
        }
    }
}

/// The value of the setting a line gives.
pub open spec fn setting_value(line: Seq<char>) -> Seq<char> {
    match line_setting(line) {
        Some((_k, v)) => v,
        None => Seq::empty(),
    }
}

/// The line sets a key of the list.
pub open spec fn sets_key(line: Seq<char>, keys: Seq<&'static str>) -> bool {
    line_setting(line) matches Some((k, _v)) && one_of(k, keys)
}

proof fn lemma_key_lists_disjoint(key: Seq<char>)
    ensures
        one_of(key, login_keys()) ==> !one_of(key, host_keys()),
        one_of(key, license_keys()) ==> !one_of(key, host_keys()) && !one_of(key, login_keys()),
{
    reveal_strlit("host");
    reveal_strlit("server");
    reveal_strlit("update_host");
    reveal_strlit("updatehost");
    reveal_strlit("base_url");
    reveal_strlit("baseurl");
    reveal_strlit("url");
    reveal_strlit("module");
    reveal_strlit("login");
    reveal_strlit("username");
    reveal_strlit("user");
    reveal_strlit("email");
    reveal_strlit("licensekey");
    reveal_strlit("license_key");
    reveal_strlit("key");
    reveal_strlit("license");
    reveal_strlit("password");
    reveal_strlit("token");
    let h = host_keys();
    let l = login_keys();
    let k = license_keys();
    assert(h[0]@ == "host"@ && h[1]@ == "server"@ && h[2]@ == "update_host"@ && h[3]@ == "updatehost"@);
    assert(h[4]@ == "base_url"@ && h[5]@ == "baseurl"@ && h[6]@ == "url"@ && h[7]@ == "module"@);
    assert(l[0]@ == "login"@ && l[1]@ == "username"@ && l[2]@ == "user"@ && l[3]@ == "email"@);
    assert(k[0]@ == "licensekey"@ && k[1]@ == "license_key"@ && k[2]@ == "key"@ && k[3]@ == "license"@);
    assert(k[4]@ == "password"@ && k[5]@ == "token"@);
    if one_of(key, l) && one_of(key, h) {
        let i = choose|i: int| 0 <= i < l.len() && (#[trigger] l[i])@ == key;
        let j = choose|j: int| 0 <= j < h.len() && (#[trigger] h[j])@ == key;
        if i == 0 && j == 0 {
            assert(l[0]@.len() != h[0]@.len());
        }
        if i == 0 && j == 1 {
            assert(l[0]@.len() != h[1]@.len());
        }
        if i == 0 && j == 2 {
            assert(l[0]@.len() != h[2]@.len());
        }
        if i == 0 && j == 3 {
            assert(l[0]@.len() != h[3]@.len());
        }
        if i == 0 && j == 4 {
            assert(l[0]@.len() != h[4]@.len());
        }
        if i == 0 && j == 5 {
            assert(l[0]@.len() != h[5]@.len());
        }
        if i == 0 && j == 6 {
            assert(l[0]@.len() != h[6]@.len());
        }
        if i == 0 && j == 7 {
            assert(l[0]@.len() != h[7]@.len());
        }
        if i == 1 && j == 0 {
            assert(l[1]@.len() != h[0]@.len());
        }
        if i == 1 && j == 1 {
            assert(l[1]@.len() != h[1]@.len());
        }
        if i == 1 && j == 2 {
            assert(l[1]@.len() != h[2]@.len());
        }
        if i == 1 && j == 3 {
            assert(l[1]@.len() != h[3]@.len());
        }
        if i == 1 && j == 4 {
            assert(l[1]@[0] != h[4]@[0]);
        }
        if i == 1 && j == 5 {
            assert(l[1]@.len() != h[5]@.len());
        }
        if i == 1 && j == 6 {
            assert(l[1]@.len() != h[6]@.len());
        }
        if i == 1 && j == 7 {
            assert(l[1]@.len() != h[7]@.len());
        }
        if i == 2 && j == 0 {
            assert(l[2]@[0] != h[0]@[0]);
        }
        if i == 2 && j == 1 {
            assert(l[2]@.len() != h[1]@.len());
        }
        if i == 2 && j == 2 {
            assert(l[2]@.len() != h[2]@.len());
        }
        if i == 2 && j == 3 {
            assert(l[2]@.len() != h[3]@.len());
        }
        if i == 2 && j == 4 {
            assert(l[2]@.len() != h[4]@.len());
        }
        if i == 2 && j == 5 {
            assert(l[2]@.len() != h[5]@.len());
        }
        if i == 2 && j == 6 {
            assert(l[2]@.len() != h[6]@.len());
        }
        if i == 2 && j == 7 {
            assert(l[2]@.len() != h[7]@.len());
        }
        if i == 3 && j == 0 {
            assert(l[3]@.len() != h[0]@.len());
        }
        if i == 3 && j == 1 {
            assert(l[3]@.len() != h[1]@.len());
        }
        if i == 3 && j == 2 {
            assert(l[3]@.len() != h[2]@.len());
        }
        if i == 3 && j == 3 {
            assert(l[3]@.len() != h[3]@.len());
        }
        if i == 3 && j == 4 {
            assert(l[3]@.len() != h[4]@.len());
        }
        if i == 3 && j == 5 {
            assert(l[3]@.len() != h[5]@.len());
        }
        if i == 3 && j == 6 {
            assert(l[3]@.len() != h[6]@.len());
        }
        if i == 3 && j == 7 {
            assert(l[3]@.len() != h[7]@.len());
        }
        assert(l[i]@ == h[j]@);
    }
    if one_of(key, k) && one_of(key, h) {
        let i = choose|i: int| 0 <= i < k.len() && (#[trigger] k[i])@ == key;
        let j = choose|j: int| 0 <= j < h.len() && (#[trigger] h[j])@ == key;
        if i == 0 && j == 0 {
            assert(k[0]@.len() != h[0]@.len());
        }
        if i == 0 && j == 1 {
            assert(k[0]@.len() != h[1]@.len());
        }
        if i == 0 && j == 2 {
            assert(k[0]@.len() != h[2]@.len());
        }
        if i == 0 && j == 3 {
            assert(k[0]@[0] != h[3]@[0]);
        }
        if i == 0 && j == 4 {
            assert(k[0]@.len() != h[4]@.len());
        }
        if i == 0 && j == 5 {
            assert(k[0]@.len() != h[5]@.len());
        }
        if i == 0 && j == 6 {
            assert(k[0]@.len() != h[6]@.len());
        }
        if i == 0 && j == 7 {
            assert(k[0]@.len() != h[7]@.len());
        }
        if i == 1 && j == 0 {
            assert(k[1]@.len() != h[0]@.len());
        }
        if i == 1 && j == 1 {
            assert(k[1]@.len() != h[1]@.len());
        }
        if i == 1 && j == 2 {
            assert(k[1]@[0] != h[2]@[0]);
        }
        if i == 1 && j == 3 {
            assert(k[1]@.len() != h[3]@.len());
        }
        if i == 1 && j == 4 {
            assert(k[1]@.len() != h[4]@.len());
        }
        if i == 1 && j == 5 {
            assert(k[1]@.len() != h[5]@.len());
        }
        if i == 1 && j == 6 {
            assert(k[1]@.len() != h[6]@.len());
        }
        if i == 1 && j == 7 {
            assert(k[1]@.len() != h[7]@.len());
        }
        if i == 2 && j == 0 {
            assert(k[2]@.len() != h[0]@.len());
        }
        if i == 2 && j == 1 {
            assert(k[2]@.len() != h[1]@.len());
        }
        if i == 2 && j == 2 {
            assert(k[2]@.len() != h[2]@.len());
        }
        if i == 2 && j == 3 {
            assert(k[2]@.len() != h[3]@.len());
        }
        if i == 2 && j == 4 {
            assert(k[2]@.len() != h[4]@.len());
        }
        if i == 2 && j == 5 {
            assert(k[2]@.len() != h[5]@.len());
        }
        if i == 2 && j == 6 {
            assert(k[2]@[0] != h[6]@[0]);
        }
        if i == 2 && j == 7 {
            assert(k[2]@.len() != h[7]@.len());
        }
        if i == 3 && j == 0 {
            assert(k[3]@.len() != h[0]@.len());
        }
        if i == 3 && j == 1 {
            assert(k[3]@.len() != h[1]@.len());
        }
        if i == 3 && j == 2 {
            assert(k[3]@.len() != h[2]@.len());
        }
        if i == 3 && j == 3 {
            assert(k[3]@.len() != h[3]@.len());
        }
        if i == 3 && j == 4 {
            assert(k[3]@.len() != h[4]@.len());
        }
        if i == 3 && j == 5 {
            assert(k[3]@[0] != h[5]@[0]);
        }
        if i == 3 && j == 6 {
            assert(k[3]@.len() != h[6]@.len());
        }
        if i == 3 && j == 7 {
            assert(k[3]@.len() != h[7]@.len());
        }
        if i == 4 && j == 0 {
            assert(k[4]@.len() != h[0]@.len());
        }
        if i == 4 && j == 1 {
            assert(k[4]@.len() != h[1]@.len());
        }
        if i == 4 && j == 2 {
            assert(k[4]@.len() != h[2]@.len());
        }
        if i == 4 && j == 3 {
            assert(k[4]@.len() != h[3]@.len());
        }
        if i == 4 && j == 4 {
            assert(k[4]@[0] != h[4]@[0]);
        }
        if i == 4 && j == 5 {
            assert(k[4]@.len() != h[5]@.len());
        }
        if i == 4 && j == 6 {
            assert(k[4]@.len() != h[6]@.len());
        }
        if i == 4 && j == 7 {
            assert(k[4]@.len() != h[7]@.len());
        }
        if i == 5 && j == 0 {
            assert(k[5]@.len() != h[0]@.len());
        }
        if i == 5 && j == 1 {
            assert(k[5]@.len() != h[1]@.len());
        }
        if i == 5 && j == 2 {
            assert(k[5]@.len() != h[2]@.len());
        }
        if i == 5 && j == 3 {
            assert(k[5]@.len() != h[3]@.len());
        }
        if i == 5 && j == 4 {
            assert(k[5]@.len() != h[4]@.len());
        }
        if i == 5 && j == 5 {
            assert(k[5]@.len() != h[5]@.len());
        }
        if i == 5 && j == 6 {
            assert(k[5]@.len() != h[6]@.len());
        }
        if i == 5 && j == 7 {
            assert(k[5]@.len() != h[7]@.len());
        }
        assert(k[i]@ == h[j]@);
    }
    if one_of(key, k) && one_of(key, l) {
        let i = choose|i: int| 0 <= i < k.len() && (#[trigger] k[i])@ == key;
        let j = choose|j: int| 0 <= j < l.len() && (#[trigger] l[j])@ == key;
        if i == 0 && j == 0 {
            assert(k[0]@.len() != l[0]@.len());
        }
        if i == 0 && j == 1 {
            assert(k[0]@.len() != l[1]@.len());
        }
        if i == 0 && j == 2 {
            assert(k[0]@.len() != l[2]@.len());
        }
        if i == 0 && j == 3 {
            assert(k[0]@.len() != l[3]@.len());
        }
        if i == 1 && j == 0 {
            assert(k[1]@.len() != l[0]@.len());
        }
        if i == 1 && j == 1 {
            assert(k[1]@.len() != l[1]@.len());
        }
        if i == 1 && j == 2 {
            assert(k[1]@.len() != l[2]@.len());
        }
        if i == 1 && j == 3 {
            assert(k[1]@.len() != l[3]@.len());
        }
        if i == 2 && j == 0 {
            assert(k[2]@.len() != l[0]@.len());
        }
        if i == 2 && j == 1 {
            assert(k[2]@.len() != l[1]@.len());
        }
        if i == 2 && j == 2 {
            assert(k[2]@.len() != l[2]@.len());
        }
        if i == 2 && j == 3 {
            assert(k[2]@.len() != l[3]@.len());
        }
        if i == 3 && j == 0 {
            assert(k[3]@.len() != l[0]@.len());
        }
        if i == 3 && j == 1 {
            assert(k[3]@.len() != l[1]@.len());
        }
        if i == 3 && j == 2 {
            assert(k[3]@.len() != l[2]@.len());
        }
        if i == 3 && j == 3 {
            assert(k[3]@.len() != l[3]@.len());
        }
        if i == 4 && j == 0 {
            assert(k[4]@.len() != l[0]@.len());
        }
        if i == 4 && j == 1 {
            assert(k[4]@[0] != l[1]@[0]);
        }
        if i == 4 && j == 2 {
            assert(k[4]@.len() != l[2]@.len());
        }
        if i == 4 && j == 3 {
            assert(k[4]@.len() != l[3]@.len());
        }
        if i == 5 && j == 0 {
            assert(k[5]@[0] != l[0]@[0]);
        }
        if i == 5 && j == 1 {
            assert(k[5]@.len() != l[1]@.len());
        }
        if i == 5 && j == 2 {
            assert(k[5]@.len() != l[2]@.len());
        }
        if i == 5 && j == 3 {
            assert(k[5]@[0] != l[3]@[0]);
        }
        assert(k[i]@ == l[j]@);
    }
}

/// Reading a line changes the login only when the line sets a login key,
/// and the key only when it sets a license key.
proof fn lemma_step_credentials(st: CfgProfileState, line: Seq<char>)
    ensures
        cfg_profile_step(st, line).1 == if sets_key(line, login_keys()) {
            Some(setting_value(line))
        } else {
            st.1
        },
        cfg_profile_step(st, line).2 == if sets_key(line, license_keys()) {
            Some(setting_value(line))
        } else {
            st.2
        },
{
    match line_setting(line) {
        Some((key, _v)) => {
            lemma_key_lists_disjoint(key);
        },
        None => {},
    }
}


/// A line written as key, separator and value splits back into them.
proof fn lemma_setting_line(key: Seq<char>, sep: char, e: Seq<char>)
    requires
        sep == '|' || sep == '=',
        forall|i: int| 0 <= i < key.len() ==> #[trigger] key[i] != '|' && (sep == '=' ==> key[i] != '='),
        forall|i: int| 0 <= i < e.len() ==> #[trigger] e[i] != '|',
        key.len() == 0 || !is_ws(key[0]),
        e.len() > 0,
        !is_ws(e.last()),
    ensures
        trim(key + seq![sep] + e) == key + seq![sep] + e,
        cfg_line_parts(key + seq![sep] + e) == Some((key, e, sep)),
{
    let line = key + seq![sep] + e;
    let n = key.len() as int;
    assert(line[n] == sep);
    if n > 0 {
        assert(line[0] == key[0]);
    }
    assert(line.last() == e.last());
    lemma_trim_plain_ends(line);
    lemma_find_after(line, seq!['|'], 0);
    lemma_find_after(line, seq!['='], 0);
    assert forall|j: int| 0 <= j < n implies !occurs_at(line, seq!['|'], j) by {
        lemma_occurs_char(line, '|', j);
        assert(line[j] == key[j]);
    }
    if sep == '|' {
        lemma_occurs_char(line, '|', n);
        match find(line, seq!['|']) {
            Some(i) => {
                if i < n {
                    assert(!occurs_at(line, seq!['|'], i));
                }
            },
            None => {},
        }
    } else {
        assert forall|j: int| 0 <= j implies !occurs_at(line, seq!['|'], j) by {
            lemma_occurs_char(line, '|', j);
            if n < j < line.len() {
                assert(line[j] == e[j - n - 1]);
            }
        }
        assert forall|j: int| 0 <= j < n implies !occurs_at(line, seq!['='], j) by {
            lemma_occurs_char(line, '=', j);
            assert(line[j] == key[j]);
        }
        lemma_occurs_char(line, '=', n);
        match find(line, seq!['=']) {
            Some(i) => {
                if i < n {
                    assert(!occurs_at(line, seq!['='], i));
                }
            },
            None => {},
        }
    }
    assert(line.subrange(0, n) =~= key);
    assert(line.subrange(n + 1, line.len() as int) =~= e);
}

/// The key a line splits into.
pub open spec fn parts_key(raw: Seq<char>) -> Seq<char> {
    match cfg_line_parts(raw) {
        Some((k, _v, _s)) => k,
        None => Seq::empty(),
    }
}

/// The separator a line splits at.
pub open spec fn parts_sep(raw: Seq<char>) -> char {
    match cfg_line_parts(raw) {
        Some((_k, _v, sep)) => sep,
        None => '=',
    }
}

/// The key of a split line, trimmed, starts where the trimmed line does.
proof fn lemma_key_start(raw: Seq<char>)
    requires
        cfg_line_parts(raw) is Some,
    ensures
        ({
            let k = parts_key(raw);
            trim(k).len() > 0 ==> trim(k)[0] == trim(raw)[0]
        }),
        ({
            let k = parts_key(raw);
            forall|i: int| 0 <= i < trim(k).len() ==> #[trigger] trim(k)[i] != '|' && (parts_sep(raw) == '='
                ==> trim(k)[i] != '=')
        }),
        trim(trim(parts_key(raw))) == trim(parts_key(raw)),
{
    let k = parts_key(raw);
    let sep = parts_sep(raw);
    lemma_trim_idempotent(k);
    lemma_trim_shape(raw);
    let (a, b) = choose|a: int, b: int|
        0 <= a <= b <= raw.len() && trim(raw) == raw.subrange(a, b) && (forall|j: int|
            0 <= j < a ==> is_ws(#[trigger] raw[j])) && (forall|j: int|
            b <= j < raw.len() ==> is_ws(#[trigger] raw[j])) && (a < b ==> !is_ws(raw[a]) && !is_ws(
            raw[b - 1],
        ));
    lemma_trim_shape(k);
    let (c, d) = choose|c: int, d: int|
        0 <= c <= d <= k.len() && trim(k) == k.subrange(c, d) && (forall|j: int|
            0 <= j < c ==> is_ws(#[trigger] k[j])) && (forall|j: int|
            d <= j < k.len() ==> is_ws(#[trigger] k[j])) && (c < d ==> !is_ws(k[c]) && !is_ws(
            k[d - 1],
        ));
    lemma_find_after(raw, seq!['|'], 0);
    lemma_find_after(raw, seq!['='], 0);
    let i = k.len() as int;
    assert(k == raw.subrange(0, i));
    if sep == '|' {
        assert forall|j: int| 0 <= j < i implies raw[j] != '|' by {
            lemma_occurs_char(raw, '|', j);
        }
    } else {
        assert forall|j: int| 0 <= j implies !occurs_at(raw, seq!['|'], j) by {}
        assert forall|j: int| 0 <= j < raw.len() implies raw[j] != '|' by {
            lemma_occurs_char(raw, '|', j);
        }
        assert forall|j: int| 0 <= j < i implies raw[j] != '=' by {
            lemma_occurs_char(raw, '=', j);
        }
    }
    assert forall|q: int| 0 <= q < trim(k).len() implies #[trigger] trim(k)[q] != '|' && (sep == '='
        ==> trim(k)[q] != '=') by {
        assert(trim(k)[q] == k[c + q]);
        assert(k[c + q] == raw[c + q]);
    }
    if c < d {
        // the first non-white character of the key is the first of the line
        if c < a {
            assert(is_ws(raw[c]));
            assert(k[c] == raw[c]);
        }
        if c > a {
            assert(a < i);
            assert(k[a] == raw[a]);
            if a < b {
                assert(is_ws(k[a]));
            } else {
                assert(raw[c] != '|');
            }
        }
        if a < b {
            assert(trim(raw)[0] == raw[a]);
        } else {
            assert(is_ws(raw[c]));
            assert(k[c] == raw[c]);
        }
        assert(trim(k)[0] == k[c]);
    }
}


/// Every line of `o` that sets a key of the list sets it to `v`.
pub open spec fn field_consistent(o: Seq<Seq<char>>, keys: Seq<&'static str>, v: Seq<char>) -> bool {
    forall|i: int| 0 <= i < o.len() && sets_key(#[trigger] o[i], keys) ==> setting_value(o[i]) == v
}

/// Some line of `o` sets a key of the list.
pub open spec fn some_sets(o: Seq<Seq<char>>, keys: Seq<&'static str>) -> bool {
    exists|i: int| 0 <= i < o.len() && sets_key(#[trigger] o[i], keys)
}

/// A credential written as `key`, separator, encoded value is read back as
/// that key with the credential.
proof fn lemma_written_credential(k: Seq<char>, sep: char, v: Seq<char>)
    requires
        plain_credential(v),
        sep == '|' || sep == '=',
        forall|i: int| 0 <= i < k.len() ==> #[trigger] k[i] != '|' && (sep == '=' ==> k[i] != '='),
        k.len() == 0 || (!is_ws(k[0]) && k[0] != '#' && k[0] != ';'),
        trim(k) == k,
    ensures
        line_setting(k + seq![sep] + encoded_cfg_value(v, sep)) == Some((lowercase(k), v)),
{
    let e = encoded_cfg_value(v, sep);
    if sep == '=' {
        lemma_encoded_equals(v);
        assert forall|i: int| 0 <= i < e.len() implies #[trigger] e[i] != '|' by {
            if e[i] != '\\' {
                let j = choose|j: int| 0 <= j < v.len() && v[j] == e[i];
                assert(v[j] != '|');
            }
        }
    } else {
        assert(e == v);
    }
    lemma_setting_line(k, sep, e);
    lemma_credential_value_round_trip(v, sep);
    let line = k + seq![sep] + e;
    if k.len() > 0 {
        assert(line[0] == k[0]);
    } else {
        assert(line[0] == sep);
    }
}

/// The lines written so far hold each credential only with its new value,
/// and hold it whenever the writer says it wrote it.
proof fn lemma_credential_scan(ls: Seq<Seq<char>>, login: Seq<char>, key: Seq<char>)
    requires
        plain_credential(login),
        plain_credential(key),
    ensures
        ({
            let st = credential_scan(ls, login, key);
            &&& field_consistent(st.0, login_keys(), login)
            &&& field_consistent(st.0, license_keys(), key)
            &&& st.1 ==> some_sets(st.0, login_keys())
            &&& st.2 ==> some_sets(st.0, license_keys())
        }),
    decreases ls.len(),
{
    if ls.len() > 0 {
        lemma_credential_scan(ls.drop_last(), login, key);
        let prev = credential_scan(ls.drop_last(), login, key);
        let raw = ls.last();
        let st = credential_step(prev, raw, login, key);
        assert(st == credential_scan(ls, login, key));
        let x = st.0.last();
        assert(st.0 == prev.0.push(x));
        // what the reader makes of the new line
        let mut sets_l = false;
        let mut sets_k = false;
        if cfg_comment_line(trim(raw)) {
            assert(x == raw);
            assert(line_setting(x) is None);
        } else {
            match cfg_line_parts(raw) {
                None => {
                    assert(x == raw);
                    lemma_parts_of_trim(raw);
                    assert(line_setting(x) is None);
                },
                Some((k, _v, sep)) => {
                    let kw = lowercase(trim(k));
                    lemma_key_lists_disjoint(kw);
                    lemma_parts_of_trim(raw);
                    lemma_key_start(raw);
                    lemma_trim_shape(k);
                    lemma_trim_shape(raw);
                    let tk = trim(k);
                    if tk.len() > 0 {
                        let (c, d) = choose|c: int, d: int|
                            0 <= c <= d <= k.len() && trim(k) == k.subrange(c, d) && (forall|j: int|
                                0 <= j < c ==> is_ws(#[trigger] k[j])) && (forall|j: int|
                                d <= j < k.len() ==> is_ws(#[trigger] k[j])) && (c < d ==> !is_ws(k[c])
                                && !is_ws(k[d - 1]));
                        assert(tk[0] == k[c]);
                        assert(trim(raw).len() > 0);
                        assert(tk[0] == trim(raw)[0]);
                    }
                    if one_of(kw, login_keys()) {
                        lemma_written_credential(tk, sep, login);
                        assert(x == tk + seq![sep] + encoded_cfg_value(login, sep));
                        sets_l = true;
                    } else if one_of(kw, license_keys()) {
                        lemma_written_credential(tk, sep, key);
                        assert(x == tk + seq![sep] + encoded_cfg_value(key, sep));
                        sets_k = true;
                    } else {
                        assert(x == raw);
                    }
                },
            }
        }
        assert forall|i: int| 0 <= i < st.0.len() && sets_key(#[trigger] st.0[i], login_keys()) implies setting_value(
            st.0[i],
        ) == login by {
            if i < prev.0.len() {
                assert(st.0[i] == prev.0[i]);
            }
        }
        assert forall|i: int| 0 <= i < st.0.len() && sets_key(#[trigger] st.0[i], license_keys()) implies setting_value(
            st.0[i],
        ) == key by {
            if i < prev.0.len() {
                assert(st.0[i] == prev.0[i]);
            }
        }
        if st.1 {
            if prev.1 {
                let i = choose|i: int| 0 <= i < prev.0.len() && sets_key(#[trigger] prev.0[i], login_keys());
                assert(st.0[i] == prev.0[i]);
            } else {
                assert(sets_key(st.0[st.0.len() - 1], login_keys()));
            }
        }
        if st.2 {
            if prev.2 {
                let i = choose|i: int| 0 <= i < prev.0.len() && sets_key(#[trigger] prev.0[i], license_keys());
                assert(st.0[i] == prev.0[i]);
            } else {
                assert(sets_key(st.0[st.0.len() - 1], license_keys()));
            }
        }
    }
}


/// The default server is a plain value.
proof fn lemma_default_host_plain()
    ensures
        plain_credential(default_host()),
{
    reveal_strlit("https://update.x-plane.org");
    let h = default_host();
    assert(h.len() == 26);
    assert forall|i: int| 0 <= i < h.len() implies #[trigger] h[i] != '\n' && h[i] != '\r' && h[i] != '|' && h[i]
        != '\\' by {
        assert(i == 0 || i == 1 || i == 2 || i == 3 || i == 4 || i == 5 || i == 6 || i == 7 || i == 8 || i == 9 || i == 10 || i == 11 || i == 12 || i == 13 || i == 14 || i == 15 || i == 16 || i == 17 || i == 18 || i == 19 || i == 20 || i == 21 || i == 22 || i == 23 || i == 24 || i == 25);
    }
}


proof fn lemma_default_separator(ls: Seq<Seq<char>>)
    ensures
        default_separator(ls) == '|' || default_separator(ls) == '=',
    decreases ls.len(),
{
    if ls.len() > 0 {
        lemma_default_separator(ls.drop_first());
    }
}

proof fn lemma_key_lengths(x: Seq<char>)
    ensures
        one_of(x, login_keys()) ==> x.len() <= 8,
        one_of(x, license_keys()) ==> x.len() <= 11,
{
    reveal_strlit("login");
    reveal_strlit("username");
    reveal_strlit("user");
    reveal_strlit("email");
    reveal_strlit("licensekey");
    reveal_strlit("license_key");
    reveal_strlit("key");
    reveal_strlit("license");
    reveal_strlit("password");
    reveal_strlit("token");
    let l = login_keys();
    let k = license_keys();
    assert(l[0]@ == "login"@ && l[1]@ == "username"@ && l[2]@ == "user"@ && l[3]@ == "email"@);
    assert(k[0]@ == "licensekey"@ && k[1]@ == "license_key"@ && k[2]@ == "key"@ && k[3]@ == "license"@);
    assert(k[4]@ == "password"@ && k[5]@ == "token"@);
    if one_of(x, l) {
        let i = choose|i: int| 0 <= i < l.len() && (#[trigger] l[i])@ == x;
        assert(i == 0 || i == 1 || i == 2 || i == 3);
    }
    if one_of(x, k) {
        let i = choose|i: int| 0 <= i < k.len() && (#[trigger] k[i])@ == x;
        assert(i == 0 || i == 1 || i == 2 || i == 3 || i == 4 || i == 5);
    }
}

pub open spec fn host_line(ds: char) -> Seq<char> {
    "host"@ + seq![ds] + encoded_cfg_value(default_host(), ds)
}

pub open spec fn login_line(ds: char, login: Seq<char>) -> Seq<char> {
    "login"@ + seq![ds] + encoded_cfg_value(login, ds)
}

pub open spec fn key_line(ds: char, key: Seq<char>) -> Seq<char> {
    "key"@ + seq![ds] + encoded_cfg_value(key, ds)
}

pub open spec fn config_version_line(ds: char) -> Seq<char> {
    "configVersion"@ + seq![ds] + "3"@
}

/// What the reader makes of the lines the writer may append.
proof fn lemma_appended_lines(ds: char, login: Seq<char>, key: Seq<char>)
    requires
        ds == '|' || ds == '=',
        plain_credential(login),
        plain_credential(key),
    ensures
        line_setting("#ClientApp properties"@) is None,
        !sets_key(host_line(ds), login_keys()) && !sets_key(host_line(ds), license_keys()),
        sets_key(login_line(ds, login), login_keys()) && setting_value(login_line(ds, login)) == login,
        !sets_key(login_line(ds, login), license_keys()),
        sets_key(key_line(ds, key), license_keys()) && setting_value(key_line(ds, key)) == key,
        !sets_key(key_line(ds, key), login_keys()),
        !sets_key(config_version_line(ds), login_keys()) && !sets_key(config_version_line(ds), license_keys()),
{
    reveal(lowercase);
    reveal_strlit("#ClientApp properties");
    reveal_strlit("host");
    reveal_strlit("login");
    reveal_strlit("key");
    reveal_strlit("configVersion");
    reveal_strlit("3");
    reveal_strlit("server");
    reveal_strlit("update_host");
    reveal_strlit("updatehost");
    reveal_strlit("base_url");
    reveal_strlit("baseurl");
    reveal_strlit("url");
    reveal_strlit("module");
    reveal_strlit("username");
    reveal_strlit("user");
    reveal_strlit("email");
    reveal_strlit("licensekey");
    reveal_strlit("license_key");
    reveal_strlit("license");
    reveal_strlit("password");
    reveal_strlit("token");
    let c = "#ClientApp properties"@;
    lemma_trim_plain_ends(c);
    // the host line
    let h = "host"@;
    lemma_trim_plain_ends(h);
    lemma_default_host_plain();
    lemma_written_credential(h, ds, default_host());
    assert(all_ascii(h));
    assert(ascii_lower_seq(h) =~= h);
    assert(lowercase(h) == h);
    assert(host_keys()[0]@ == h);
    lemma_key_lists_disjoint(h);
    // the login line
    let lg = "login"@;
    lemma_trim_plain_ends(lg);
    lemma_written_credential(lg, ds, login);
    assert(all_ascii(lg));
    assert(ascii_lower_seq(lg) =~= lg);
    assert(login_keys()[0]@ == lg);
    lemma_key_lists_disjoint(lg);
    // the key line
    let ky = "key"@;
    lemma_trim_plain_ends(ky);
    lemma_written_credential(ky, ds, key);
    assert(all_ascii(ky));
    assert(ascii_lower_seq(ky) =~= ky);
    assert(license_keys()[2]@ == ky);
    lemma_key_lists_disjoint(ky);
    // the configVersion line
    let cv = "configVersion"@;
    lemma_trim_plain_ends(cv);
    lemma_setting_line(cv, ds, "3"@);
    assert(plain_credential("3"@));
    lemma_credential_value_round_trip("3"@, '|');
    assert(encoded_cfg_value("3"@, '|') == "3"@);
    assert(all_ascii(cv));
    assert(lowercase(cv).len() == 13);
    lemma_key_lengths(lowercase(cv));
}


/// An encoded plain value holds no line feed.
proof fn lemma_encoded_plain(v: Seq<char>, sep: char)
    requires
        plain_credential(v),
    ensures
        no_line_feed(encoded_cfg_value(v, sep)),
{
    let e = encoded_cfg_value(v, sep);
    if sep == '=' {
        lemma_encoded_equals(v);
        assert forall|i: int| 0 <= i < e.len() implies #[trigger] e[i] != '\n' by {
            if e[i] != '\\' {
                let j = choose|j: int| 0 <= j < v.len() && v[j] == e[i];
                assert(v[j] != '\n');
            }
        }
    } else {
        assert(e == v);
        assert forall|i: int| 0 <= i < e.len() implies #[trigger] e[i] != '\n' by {
            assert(v[i] != '\n');
        }
    }
}

/// The lines the writer keeps or rewrites hold no line feed.
proof fn lemma_credential_scan_plain(ls: Seq<Seq<char>>, login: Seq<char>, key: Seq<char>)
    requires
        plain_credential(login),
        plain_credential(key),
        forall|i: int| 0 <= i < ls.len() ==> no_line_feed(#[trigger] ls[i]),
    ensures
        forall|i: int|
            0 <= i < credential_scan(ls, login, key).0.len() ==> no_line_feed(
                #[trigger] credential_scan(ls, login, key).0[i],
            ),
        credential_scan(ls, login, key).0.len() == ls.len(),
    decreases ls.len(),
{
    if ls.len() > 0 {
        let d = ls.drop_last();
        assert forall|i: int| 0 <= i < d.len() implies no_line_feed(#[trigger] d[i]) by {
            assert(d[i] == ls[i]);
        }
        lemma_credential_scan_plain(d, login, key);
        let prev = credential_scan(d, login, key);
        let raw = ls.last();
        assert(no_line_feed(raw));
        let st = credential_scan(ls, login, key);
        let x = st.0.last();
        assert(st.0 == prev.0.push(x));
        assert(no_line_feed(x)) by {
            if !cfg_comment_line(trim(raw)) && cfg_line_parts(raw) is Some {
                let k = parts_key(raw);
                let sep = parts_sep(raw);
                lemma_trim_shape(k);
                let (c, e) = choose|c: int, e: int|
                    0 <= c <= e <= k.len() && trim(k) == k.subrange(c, e) && (forall|j: int|
                        0 <= j < c ==> is_ws(#[trigger] k[j])) && (forall|j: int|
                        e <= j < k.len() ==> is_ws(#[trigger] k[j])) && (c < e ==> !is_ws(k[c])
                        && !is_ws(k[e - 1]));
                lemma_find_after(raw, seq!['|'], 0);
                lemma_find_after(raw, seq!['='], 0);
                assert(k == raw.subrange(0, k.len() as int));
                let tk = trim(k);
                assert forall|j: int| 0 <= j < tk.len() implies #[trigger] tk[j] != '\n' by {
                    assert(tk[j] == k[c + j]);
                    assert(k[c + j] == raw[c + j]);
                }
                lemma_encoded_plain(login, sep);
                lemma_encoded_plain(key, sep);
                let el = encoded_cfg_value(login, sep);
                let ek = encoded_cfg_value(key, sep);
                let kw = lowercase(tk);
                if one_of(kw, login_keys()) {
                    assert(x == tk + seq![sep] + el);
                    assert forall|j: int| 0 <= j < x.len() implies #[trigger] x[j] != '\n' by {
                        if j < tk.len() {
                            assert(x[j] == tk[j]);
                        } else if j > tk.len() {
                            assert(x[j] == el[j - tk.len() - 1]);
                        }
                    }
                } else if one_of(kw, license_keys()) {
                    assert(x == tk + seq![sep] + ek);
                    assert forall|j: int| 0 <= j < x.len() implies #[trigger] x[j] != '\n' by {
                        if j < tk.len() {
                            assert(x[j] == tk[j]);
                        } else if j > tk.len() {
                            assert(x[j] == ek[j - tk.len() - 1]);
                        }
                    }
                }
            }
        }
        assert forall|i: int| 0 <= i < st.0.len() implies no_line_feed(#[trigger] st.0[i]) by {
            if i < prev.0.len() {
                assert(st.0[i] == prev.0[i]);
            }
        }
    }
}

/// A line with its `\r` ending dropped gives the same setting.
proof fn lemma_setting_strip_cr(x: Seq<char>)
    ensures
        line_setting(strip_cr(x)) == line_setting(x),
{
    if x.len() > 0 && x.last() == '\r' {
        lemma_trim_drop_ws_last(x);
    }
}

/// When every line setting a field sets it to `v`, and some line does,
/// reading the lines gives `v`.
proof fn lemma_scan_field(ls: Seq<Seq<char>>, keys: Seq<&'static str>, v: Seq<char>)
    requires
        keys == login_keys() || keys == license_keys(),
        field_consistent(ls, keys, v),
        some_sets(ls, keys),
    ensures
        keys == login_keys() ==> cfg_profile_scan(ls).1 == Some(v),
        keys == license_keys() ==> cfg_profile_scan(ls).2 == Some(v),
    decreases ls.len(),
{
    let d = ls.drop_last();
    let x = ls.last();
    lemma_step_credentials(cfg_profile_scan(d), x);
    assert(cfg_profile_scan(ls) == cfg_profile_step(cfg_profile_scan(d), x));
    if sets_key(x, keys) {
        assert(setting_value(ls[ls.len() - 1]) == v);
    } else {
        let i = choose|i: int| 0 <= i < ls.len() && sets_key(#[trigger] ls[i], keys);
        assert(i < ls.len() - 1);
        assert(d[i] == ls[i]);
        assert forall|j: int| 0 <= j < d.len() && sets_key(#[trigger] d[j], keys) implies setting_value(d[j])
            == v by {
            assert(d[j] == ls[j]);
        }
        lemma_scan_field(d, keys, v);
    }
}

/// The lines of a text made by joining lines without line feeds, each
/// followed by a line feed, are those lines (a last empty one aside), each
/// without a `\r` ending.
proof fn lemma_lines_of_joined(o: Seq<Seq<char>>, out: Seq<char>)
    requires
        o.len() >= 1,
        forall|i: int| 0 <= i < o.len() ==> no_line_feed(#[trigger] o[i]),
        out == (if join(o, "\n"@).len() > 0 && join(o, "\n"@).last() == '\n' {
            join(o, "\n"@)
        } else {
            join(o, "\n"@).push('\n')
        }),
    ensures
        lines(out).len() == o.len() || (lines(out).len() == o.len() - 1 && o.last().len() == 0),
        forall|i: int| 0 <= i < lines(out).len() ==> #[trigger] lines(out)[i] == strip_cr(o[i]),
{
    reveal_strlit("\n");
    assert("\n"@ =~= seq!['\n']);
    lemma_split_join(o, seq!['\n']);
    let j = join(o, seq!['\n']);
    let pj = split_pieces(j, '\n');
    assert(seq!['\n'].drop_last() =~= Seq::<char>::empty());
    assert forall|i: int| 0 <= i < o.len() implies #[trigger] pj[i] == o[i] by {
        if i < o.len() - 1 {
            assert(o[i] + Seq::<char>::empty() =~= o[i]);
        }
    }
    if j.len() > 0 && j.last() == '\n' {
        assert(j == j.drop_last().push('\n'));
        lemma_split_push_line_feed(j.drop_last());
        lemma_split_pieces_nonempty(j.drop_last(), '\n');
        assert(pj.last().len() == 0);
        assert(o.last().len() == 0);
        assert forall|i: int| 0 <= i < lines(out).len() implies #[trigger] lines(out)[i] == strip_cr(o[i]) by {}
    } else {
        lemma_split_push_line_feed(j);
        let p = split_pieces(out, '\n');
        assert(p == pj.push(Seq::empty()));
        assert forall|i: int| 0 <= i < lines(out).len() implies #[trigger] lines(out)[i] == strip_cr(o[i]) by {
            assert(p[i] == pj[i]);
        }
    }
}

/// Writing credentials into a configuration profile and reading it back
/// gives them: for a login and a key that are not empty, carry no white
/// space or quotes at their ends, and hold no line break, `|` or `\`, the
/// profile read from the written text has exactly that login and key,
/// whatever the text held before.
pub proof fn law_credentials_read_back(text: Seq<char>, login: Seq<char>, key: Seq<char>)
    requires
        plain_credential(login),
        plain_credential(key),
    ensures
        cfg_profile_scan(lines(credentials_text(text, login, key))).1 == Some(login),
        cfg_profile_scan(lines(credentials_text(text, login, key))).2 == Some(key),
        forall|p: XUpdaterProfile|
            #[trigger] cfg_profile_matches(p, credentials_text(text, login, key)) ==> opt_view(p.login) == Some(login)
                && opt_view(p.license_key) == Some(key),
{
    let ls = lines(text);
    lemma_lines_plain(text);
    let ds = default_separator(ls);
    lemma_default_separator(ls);
    let st = credential_scan(ls, login, key);
    lemma_credential_scan(ls, login, key);
    lemma_credential_scan_plain(ls, login, key);
    lemma_appended_lines(ds, login, key);
    lemma_encoded_plain(login, ds);
    lemma_encoded_plain(key, ds);
    lemma_default_host_plain();
    lemma_encoded_plain(default_host(), ds);
    reveal_strlit("#ClientApp properties");
    reveal_strlit("host");
    reveal_strlit("login");
    reveal_strlit("key");
    reveal_strlit("configVersion");
    reveal_strlit("3");
    let o1 = if st.0.len() == 0 {
        seq!["#ClientApp properties"@]
    } else {
        st.0
    };
    let o2 = if !st.3 {
        o1.push(host_line(ds))
    } else {
        o1
    };
    let o3 = if !st.1 {
        o2.push(login_line(ds, login))
    } else {
        o2
    };
    let o4 = if !st.2 {
        o3.push(key_line(ds, key))
    } else {
        o3
    };
    let o5 = if !st.4 {
        o4.push(config_version_line(ds))
    } else {
        o4
    };
    let out = credentials_text(text, login, key);
    assert(out == (if join(o5, "\n"@).len() > 0 && join(o5, "\n"@).last() == '\n' {
        join(o5, "\n"@)
    } else {
        join(o5, "\n"@).push('\n')
    }));
    // every line is plain, and the credentials are set consistently
    let lit_lines = seq![
        "#ClientApp properties"@,
        host_line(ds),
        login_line(ds, login),
        key_line(ds, key),
        config_version_line(ds),
    ];
    assert forall|i: int| 0 <= i < lit_lines.len() implies no_line_feed(#[trigger] lit_lines[i]) by {
        let x = lit_lines[i];
        assert forall|j: int| 0 <= j < x.len() implies #[trigger] x[j] != '\n' by {
            if i == 1 {
                if j > 4 {
                    assert(x[j] == encoded_cfg_value(default_host(), ds)[j - 5]);
                }
            } else if i == 2 {
                if j > 5 {
                    assert(x[j] == encoded_cfg_value(login, ds)[j - 6]);
                }
            } else if i == 3 {
                if j > 3 {
                    assert(x[j] == encoded_cfg_value(key, ds)[j - 4]);
                }
            }
        }
    }
    assert(no_line_feed(lit_lines[0]) && no_line_feed(lit_lines[1]) && no_line_feed(lit_lines[2])
        && no_line_feed(lit_lines[3]) && no_line_feed(lit_lines[4]));
    assert forall|i: int| 0 <= i < o5.len() implies no_line_feed(#[trigger] o5[i]) && (sets_key(
        o5[i],
        login_keys(),
    ) ==> setting_value(o5[i]) == login) && (sets_key(o5[i], license_keys()) ==> setting_value(o5[i]) == key) by {
        if i < o1.len() {
            if st.0.len() == 0 {
                assert(o5[i] == lit_lines[0]);
            } else {
                assert(o5[i] == st.0[i]);
            }
        } else if i < o2.len() {
            assert(o5[i] == lit_lines[1]);
        } else if i < o3.len() {
            assert(o5[i] == lit_lines[2]);
        } else if i < o4.len() {
            assert(o5[i] == lit_lines[3]);
        } else {
            assert(o5[i] == lit_lines[4]);
        }
    }
    // some line sets each credential
    if st.1 {
        let i = choose|i: int| 0 <= i < st.0.len() && sets_key(#[trigger] st.0[i], login_keys());
        assert(o5[i] == st.0[i]);
        assert(some_sets(o5, login_keys()));
    } else {
        assert(o5[o2.len() as int] == login_line(ds, login));
        assert(some_sets(o5, login_keys()));
    }
    if st.2 {
        let i = choose|i: int| 0 <= i < st.0.len() && sets_key(#[trigger] st.0[i], license_keys());
        assert(o5[i] == st.0[i]);
        assert(some_sets(o5, license_keys()));
    } else {
        assert(o5[o3.len() as int] == key_line(ds, key));
        assert(some_sets(o5, license_keys()));
    }
    // the lines read back
    lemma_lines_of_joined(o5, out);
    let lo = lines(out);
    assert forall|i: int| 0 <= i < lo.len() implies #[trigger] line_setting(lo[i]) == line_setting(o5[i]) by {
        lemma_setting_strip_cr(o5[i]);
    }
    assert(field_consistent(lo, login_keys(), login)) by {
        assert forall|i: int| 0 <= i < lo.len() && sets_key(#[trigger] lo[i], login_keys()) implies setting_value(
            lo[i],
        ) == login by {
            assert(line_setting(lo[i]) == line_setting(o5[i]));
        }
    }
    assert(field_consistent(lo, license_keys(), key)) by {
        assert forall|i: int| 0 <= i < lo.len() && sets_key(#[trigger] lo[i], license_keys()) implies setting_value(
            lo[i],
        ) == key by {
            assert(line_setting(lo[i]) == line_setting(o5[i]));
        }
    }
    assert(some_sets(lo, login_keys())) by {
        let i = choose|i: int| 0 <= i < o5.len() && sets_key(#[trigger] o5[i], login_keys());
        if i == lo.len() {
            assert(o5[i].len() == 0);
            assert(line_setting(o5[i]) is None);
        }
        assert(line_setting(lo[i]) == line_setting(o5[i]));
    }
    assert(some_sets(lo, license_keys())) by {
        let i = choose|i: int| 0 <= i < o5.len() && sets_key(#[trigger] o5[i], license_keys());
        if i == lo.len() {
            assert(o5[i].len() == 0);
            assert(line_setting(o5[i]) is None);
        }
        assert(line_setting(lo[i]) == line_setting(o5[i]));
    }
    lemma_scan_field(lo, login_keys(), login);
    lemma_scan_field(lo, license_keys(), key);
}

} // verus!
