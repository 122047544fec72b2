//! X-Updater profiles written as JSON: keys are looked up exactly first,
//! then without regard to ASCII case, and the profile may sit under a
//! `profile` object with its credentials under `auth`.

use vstd::prelude::*;
use crate::json::{member, member_value, str_views, text_of, text_value, JsonMember, JsonValue};
use crate::text::{chars_of, dedup_keep_first, eq_ignore_ascii_case, eq_ignore_ascii_case_exec, string_of};
use crate::xupdater::{
    dedup_ignore_list, ignore_entries, lenient_i64, normalize_host, normalized_host, opt_int, opt_view,
    parse_ignore_entries, parse_lenient_i64, string_views, XUpdaterProfile,
};

verus! {

/// The value of the first member whose key equals `key` without regard to
/// ASCII case.
pub open spec fn member_ignoring_case(members: Seq<JsonMember>, key: Seq<char>) -> Option<JsonValue>
    decreases members.len(),
{
    if members.len() == 0 {
        None
    } else if eq_ignore_ascii_case(members[0].key@, key) {
        Some(members[0].value)
    } else {
        member_ignoring_case(members.drop_first(), key)
    }
}

/// The value of a key: the member with exactly that key, else the first
/// whose key matches without regard to ASCII case.
pub open spec fn lookup_member(members: Seq<JsonMember>, key: Seq<char>) -> Option<JsonValue> {
    match member_value(members, key) {
        Some(v) => Some(v),
        None => member_ignoring_case(members, key),
    }
}

pub fn lookup_value<'a>(object: &'a Vec<JsonMember>, key: &str) -> (r: Option<&'a JsonValue>)
    ensures
        match lookup_member(object@, key@) {
            Some(v) => r matches Some(x) && *x == v,
            None => r is None,
        },
{
    match member(object, key) {
        Some(v) => {
            return Some(v);
        },
        None => {},
    }
    let k = chars_of(key);
    let ghost all = object@;
    let mut i: usize = 0;
    assert(all.subrange(0, all.len() as int) =~= all);
    while i < object.len()
        invariant
            0 <= i <= object.len(),
            all == object@,
            k@ == key@,
            member_value(object@, key@) is None,
            member_ignoring_case(all, key@) == member_ignoring_case(all.subrange(i as int, all.len() as int), key@),
        decreases object.len() - i,
    {
        let ghost rest = all.subrange(i as int, all.len() as int);
        assert(rest[0] == object@[i as int]);
        assert(rest.drop_first() =~= all.subrange(i + 1, all.len() as int));
        if eq_ignore_ascii_case_exec(&chars_of(object[i].key.as_str()), &k) {
            return Some(&object[i].value);
        }
        i = i + 1;
    }
    None
}

/// The members of the object under a key.
pub open spec fn lookup_obj(members: Seq<JsonMember>, key: Seq<char>) -> Option<Vec<JsonMember>> {
    match lookup_member(members, key) {
        Some(JsonValue::Object(o)) => Some(o),
        _ => None,
    }
}

pub fn lookup_object<'a>(object: &'a Vec<JsonMember>, key: &str) -> (r: Option<&'a Vec<JsonMember>>)
    ensures
        match lookup_obj(object@, key@) {
            Some(o) => r matches Some(x) && *x == o,
            None => r is None,
        },
{
    match lookup_value(object, key) {
        Some(JsonValue::Object(o)) => Some(o),
        _ => None,
    }
}

/// The trimmed text of the first key, in order, that holds a non-blank
/// text.
pub open spec fn get_text(members: Seq<JsonMember>, keys: Seq<Seq<char>>) -> Option<Seq<char>>
    decreases keys.len(),
{
    if keys.len() == 0 {
        None
    } else {
        match lookup_member(members, keys[0]) {
            Some(v) => match text_of(v) {
                Some(t) => Some(t),
                None => get_text(members, keys.drop_first()),
            },
            None => get_text(members, keys.drop_first()),
        }
    }
}

pub fn get_string(object: &Vec<JsonMember>, keys: &[&str]) -> (r: Option<String>)
    ensures
        match get_text(object@, str_views(keys@)) {
            Some(t) => r matches Some(x) && x@ == t,
            None => r is None,
        },
{
    let ghost ks = str_views(keys@);
    let mut i: usize = 0;
    assert(ks.subrange(0, ks.len() as int) =~= ks);
    while i < keys.len()
        invariant
            0 <= i <= keys.len(),
            ks == str_views(keys@),
            get_text(object@, ks) == get_text(object@, ks.subrange(i as int, ks.len() as int)),
        decreases keys.len() - i,
    {
        let ghost rest = ks.subrange(i as int, ks.len() as int);
        assert(rest[0] == keys@[i as int]@);
        assert(rest.drop_first() =~= ks.subrange(i + 1, ks.len() as int));
        match lookup_value(object, keys[i]) {
            Some(v) => match text_value(v) {
                Some(t) => {
                    return Some(t);
                },
                None => {},
            },
            None => {},
        }
        i = i + 1;
    }
    None
}

/// An integer read from a value: a number with an exact `i64` value, or a
/// text read leniently (its digits, when it does not read as a whole).
pub open spec fn profile_int_of(v: JsonValue) -> Option<int> {
    match v {
        JsonValue::Number(n) => match n.exact {
            Some(e) => Some(e as int),
            None => None,
        },
        JsonValue::Text(s) => lenient_i64(s@),
        _ => None,
    }
}

/// The integer of the first key, in order, that gives one.
pub open spec fn get_int(members: Seq<JsonMember>, keys: Seq<Seq<char>>) -> Option<int>
    decreases keys.len(),
{
    if keys.len() == 0 {
        None
    } else {
        match lookup_member(members, keys[0]) {
            Some(v) => match profile_int_of(v) {
                Some(t) => Some(t),
                None => get_int(members, keys.drop_first()),
            },
            None => get_int(members, keys.drop_first()),
        }
    }
}

pub fn get_i64(object: &Vec<JsonMember>, keys: &[&str]) -> (r: Option<i64>)
    ensures
        opt_int(r) == get_int(object@, str_views(keys@)),
{
    let ghost ks = str_views(keys@);
    let mut i: usize = 0;
    assert(ks.subrange(0, ks.len() as int) =~= ks);
    while i < keys.len()
        invariant
            0 <= i <= keys.len(),
            ks == str_views(keys@),
            get_int(object@, ks) == get_int(object@, ks.subrange(i as int, ks.len() as int)),
        decreases keys.len() - i,
    {
        let ghost rest = ks.subrange(i as int, ks.len() as int);
        assert(rest[0] == keys@[i as int]@);
        assert(rest.drop_first() =~= ks.subrange(i + 1, ks.len() as int));
        match lookup_value(object, keys[i]) {
            Some(JsonValue::Number(n)) => match n.exact {
                Some(e) => {
                    return Some(e);
                },
                None => {},
            },
            Some(JsonValue::Text(s)) => match parse_lenient_i64(&chars_of(s.as_str())) {
                Some(p) => {
                    return Some(p);
                },
                None => {},
            },
            _ => {},
        }
        i = i + 1;
    }
    None
}

/// The ignore entries of the texts among the items, in order.
pub open spec fn item_entries(items: Seq<JsonValue>) -> Seq<Seq<char>>
    decreases items.len(),
{
    if items.len() == 0 {
        Seq::empty()
    } else {
        let prev = item_entries(items.drop_last());
        match items.last() {
            JsonValue::Text(s) => prev + ignore_entries(s@),
            _ => prev,
        }
    }
}

/// The ignore list a value gives: the entries of a list of texts, or of a
/// text, without repeats.
pub open spec fn ignore_of(v: JsonValue) -> Option<Seq<Seq<char>>> {
    match v {
        JsonValue::Array(a) => Some(dedup_keep_first(item_entries(a@))),
        JsonValue::Text(s) => Some(dedup_keep_first(ignore_entries(s@))),
        _ => None,
    }
}

/// The ignore list of the first key, in order, whose value gives one; none
/// when no key does.
pub open spec fn get_ignore(members: Seq<JsonMember>, keys: Seq<Seq<char>>) -> Seq<Seq<char>>
    decreases keys.len(),
{
    if keys.len() == 0 {
        Seq::empty()
    } else {
        match lookup_member(members, keys[0]) {
            Some(v) => match ignore_of(v) {
                Some(l) => l,
                None => get_ignore(members, keys.drop_first()),
            },
            None => get_ignore(members, keys.drop_first()),
        }
    }
}

fn append_strings(out: &mut Vec<String>, more: Vec<String>)
    ensures
        string_views(final(out)@) == string_views(old(out)@) + string_views(more@),
{
    let ghost start = string_views(out@);
    let mut i: usize = 0;
    assert(start + string_views(more@).subrange(0, 0) =~= start);
    while i < more.len()
        invariant
            0 <= i <= more.len(),
            string_views(out@) == start + string_views(more@).subrange(0, i as int),
        decreases more.len() - i,
    {
        let ghost before = string_views(out@);
        let c = string_of(&chars_of(more[i].as_str()));
        assert(c@ == string_views(more@)[i as int]);
        out.push(c);
        assert(string_views(out@) =~= before.push(c@));
        assert(string_views(out@) =~= start + string_views(more@).subrange(0, i + 1));
        i = i + 1;
    }
    assert(string_views(more@).subrange(0, more@.len() as int) =~= string_views(more@));
}

pub fn get_ignore_list(object: &Vec<JsonMember>, keys: &[&str]) -> (r: Vec<String>)
    ensures
        string_views(r@) == get_ignore(object@, str_views(keys@)),
{
    let ghost ks = str_views(keys@);
    let mut i: usize = 0;
    assert(ks.subrange(0, ks.len() as int) =~= ks);
    while i < keys.len()
        invariant
            0 <= i <= keys.len(),
            ks == str_views(keys@),
            get_ignore(object@, ks) == get_ignore(object@, ks.subrange(i as int, ks.len() as int)),
        decreases keys.len() - i,
    {
        let ghost rest = ks.subrange(i as int, ks.len() as int);
        assert(rest[0] == keys@[i as int]@);
        assert(rest.drop_first() =~= ks.subrange(i + 1, ks.len() as int));
        match lookup_value(object, keys[i]) {
            Some(JsonValue::Array(items)) => {
                let mut values: Vec<String> = Vec::new();
                let mut j: usize = 0;
                assert(items@.subrange(0, 0) =~= Seq::<JsonValue>::empty());
                while j < items.len()
                    invariant
                        0 <= j <= items.len(),
                        string_views(values@) == item_entries(items@.subrange(0, j as int)),
                    decreases items.len() - j,
                {
                    let ghost sub = items@.subrange(0, j + 1);
                    assert(sub.drop_last() =~= items@.subrange(0, j as int));
                    assert(sub.last() == items@[j as int]);
                    match &items[j] {
                        JsonValue::Text(s) => {
                            let entries = parse_ignore_entries(&chars_of(s.as_str()));
                            append_strings(&mut values, entries);
                        },
                        _ => {},
                    }
                    j = j + 1;
                }
                assert(items@.subrange(0, items@.len() as int) =~= items@);
                return dedup_ignore_list(values);
            },
            Some(JsonValue::Text(s)) => {
                return dedup_ignore_list(parse_ignore_entries(&chars_of(s.as_str())));
            },
            _ => {},
        }
        i = i + 1;
    }
    let out: Vec<String> = Vec::new();
    assert(string_views(out@) =~= Seq::<Seq<char>>::empty());
    out
}

pub open spec fn json_host_keys() -> Seq<Seq<char>> {
    seq!["host"@, "server"@, "updateHost"@, "baseUrl"@, "base_url"@, "url"@, "module"@]
}

pub open spec fn json_login_keys() -> Seq<Seq<char>> {
    seq!["login"@, "username"@, "user"@, "email"@]
}

pub open spec fn json_license_keys() -> Seq<Seq<char>> {
    seq!["licenseKey"@, "license_key"@, "key"@, "license"@, "password"@, "token"@]
}

pub open spec fn json_package_keys() -> Seq<Seq<char>> {
    seq![
        "packageVersion"@,
        "package_version"@,
        "package"@,
        "since"@,
        "revision"@,
        "snapshotNum"@,
        "snapshot_num"@,
    ]
}

pub open spec fn json_ignore_keys() -> Seq<Seq<char>> {
    seq!["ignoreList"@, "ignore_list"@, "ignore"@, "exclude"@]
}

pub open spec fn or_else_text(a: Option<Seq<char>>, b: Option<Seq<char>>) -> Option<Seq<char>> {
    match a {
        Some(x) => Some(x),
        None => b,
    }
}

/// The profile a JSON document describes, when it is an object: read from
/// its `profile` object if it has one, credentials also from `auth`.
pub open spec fn json_profile_matches(p: XUpdaterProfile, doc: JsonValue) -> bool {
    match doc {
        JsonValue::Object(root) => {
            let body = match lookup_obj(root@, "profile"@) {
                Some(o) => o@,
                None => root@,
            };
            let auth = lookup_obj(body, "auth"@);
            let from_auth = |keys: Seq<Seq<char>>|
                match auth {
                    Some(a) => get_text(a@, keys),
                    None => None,
                };
            &&& p.host@ == normalized_host(get_text(body, json_host_keys()))
            &&& opt_view(p.login) == or_else_text(
                get_text(body, json_login_keys()),
                from_auth(json_login_keys()),
            )
            &&& opt_view(p.license_key) == or_else_text(
                get_text(body, json_license_keys()),
                from_auth(json_license_keys()),
            )
            &&& opt_int(p.package_version) == match get_int(body, json_package_keys()) {
                Some(v) => Some(v),
                None => get_int(body, seq!["version"@]),
            }
            &&& opt_view(p.version_label) == get_text(body, seq!["version"@])
            &&& string_views(p.ignore_list@) == get_ignore(body, json_ignore_keys())
        },
        _ => false,
    }
}

/// Reads a profile from a JSON document; a document that is not an object
/// gives none.
pub fn parse_profile_json(doc: &JsonValue) -> (r: Option<XUpdaterProfile>)
    ensures
        match r {
            Some(p) => json_profile_matches(p, *doc),
            None => !(doc is Object),
        },
{
    let root = match doc {
        JsonValue::Object(o) => o,
        _ => {
            return None;
        },
    };
    let body = match lookup_object(root, "profile") {
        Some(o) => o,
        None => root,
    };
    let auth = lookup_object(body, "auth");
    let hk = ["host", "server", "updateHost", "baseUrl", "base_url", "url", "module"];
    let lk = ["login", "username", "user", "email"];
    let kk = ["licenseKey", "license_key", "key", "license", "password", "token"];
    let pk = ["packageVersion", "package_version", "package", "since", "revision", "snapshotNum", "snapshot_num"];
    let vk = ["version"];
    let ik = ["ignoreList", "ignore_list", "ignore", "exclude"];
    assert(str_views(hk@) =~= json_host_keys());
    assert(str_views(lk@) =~= json_login_keys());
    assert(str_views(kk@) =~= json_license_keys());
    assert(str_views(pk@) =~= json_package_keys());
    assert(str_views(vk@) =~= seq!["version"@]);
    assert(str_views(ik@) =~= json_ignore_keys());
    let host = get_string(body, &hk);
    let login = match get_string(body, &lk) {
        Some(v) => Some(v),
        None => match auth {
            Some(a) => get_string(a, &lk),
            None => None,
        },
    };
    let license_key = match get_string(body, &kk) {
        Some(v) => Some(v),
        None => match auth {
            Some(a) => get_string(a, &kk),
            None => None,
        },
    };
    let package_version = match get_i64(body, &pk) {
        Some(v) => Some(v),
        None => get_i64(body, &vk),
    };
    let version_label = get_string(body, &vk);
    let ignore_list = get_ignore_list(body, &ik);
    let host_s = match &host {
        Some(h) => normalize_host(Some(h.as_str())),
        None => normalize_host(None),
    };
    Some(
        XUpdaterProfile {
            host: host_s,
            login,
            license_key,
            package_version,
            version_label,
            ignore_list,
        },
    )
}

} // verus!
