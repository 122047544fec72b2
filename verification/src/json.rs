//! JSON documents as plain values, and the lookups that read them: the
//! first of several keys that holds a text, a number, an object or an
//! array.

use vstd::prelude::*;
use crate::num::parse_i64_spec;
use crate::text::{chars_of, eq_chars, string_of, trim, trim_vec};

verus! {

/// A JSON number, as the readers of this crate see it: its exact integer
/// value when it has one that fits an `i64`, and the value it gives when
/// forced to an `i64` (a float truncated, saturating).
#[derive(Debug)]
pub struct JsonNumber {
    pub exact: Option<i64>,
    pub cast: i64,
}

/// A JSON value; an object keeps its members in order.
#[derive(Debug)]
pub enum JsonValue {
    Null,
    Bool(bool),
    Number(JsonNumber),
    Text(String),
    Array(Vec<JsonValue>),
    Object(Vec<JsonMember>),
}

/// A member of a JSON object.
#[derive(Debug)]
pub struct JsonMember {
    pub key: String,
    pub value: JsonValue,
}

pub open spec fn str_views(keys: Seq<&str>) -> Seq<Seq<char>> {
    keys.map_values(|k: &str| k@)
}

/// The value of the first member with the key.
pub open spec fn member_value(members: Seq<JsonMember>, key: Seq<char>) -> Option<JsonValue>
    decreases members.len(),
{
    if members.len() == 0 {
        None
    } else if members[0].key@ == key {
        Some(members[0].value)
    } else {
        member_value(members.drop_first(), key)
    }
}

pub fn member<'a>(members: &'a Vec<JsonMember>, key: &str) -> (r: Option<&'a JsonValue>)
    ensures
        match member_value(members@, key@) {
            Some(v) => r matches Some(x) && *x == v,
            None => r is None,
        },
{
    let k = chars_of(key);
    let mut i: usize = 0;
    assert(members@.subrange(0, members@.len() as int) =~= members@);
    while i < members.len()
        invariant
            0 <= i <= members.len(),
            k@ == key@,
            member_value(members@, key@) == member_value(
                members@.subrange(i as int, members@.len() as int),
                key@,
            ),
        decreases members.len() - i,
    {
        let ghost rest = members@.subrange(i as int, members@.len() as int);
        assert(rest[0] == members@[i as int]);
        assert(rest.drop_first() =~= members@.subrange(i + 1, members@.len() as int));
        if eq_chars(&chars_of(members[i].key.as_str()), &k) {
            return Some(&members[i].value);
        }
        i = i + 1;
    }
    assert(members@.subrange(i as int, members@.len() as int) =~= Seq::<JsonMember>::empty());
    None
}

/// The text a value gives: a string, trimmed, when not blank.
pub open spec fn text_of(v: JsonValue) -> Option<Seq<char>> {
    match v {
        JsonValue::Text(s) => if trim(s@).len() > 0 {
            Some(trim(s@))
        } else {
            None
        },
        _ => None,
    }
}

/// The integer a value gives: a number (its exact value, else its forced
/// value), or a text that reads as an `i64` once trimmed.
pub open spec fn int_of(v: JsonValue) -> Option<i64> {
    match v {
        JsonValue::Number(n) => match n.exact {
            Some(e) => Some(e),
            None => Some(n.cast),
        },
        JsonValue::Text(s) => if trim(s@).len() > 0 {
            match parse_i64_spec(trim(s@)) {
                Some(x) => Some(x as i64),
                None => None,
            }
        } else {
            None
        },
        _ => None,
    }
}

/// The text of the first key, in order, whose value gives one.
pub open spec fn pick_text(members: Seq<JsonMember>, keys: Seq<Seq<char>>) -> Option<Seq<char>>
    decreases keys.len(),
{
    if keys.len() == 0 {
        None
    } else {
        match member_value(members, keys[0]) {
            Some(v) => match text_of(v) {
                Some(t) => Some(t),
                None => pick_text(members, keys.drop_first()),
            },
            None => pick_text(members, keys.drop_first()),
        }
    }
}

/// The integer of the first key, in order, whose value gives one.
pub open spec fn pick_int(members: Seq<JsonMember>, keys: Seq<Seq<char>>) -> Option<i64>
    decreases keys.len(),
{
    if keys.len() == 0 {
        None
    } else {
        match member_value(members, keys[0]) {
            Some(v) => match int_of(v) {
                Some(t) => Some(t),
                None => pick_int(members, keys.drop_first()),
            },
            None => pick_int(members, keys.drop_first()),
        }
    }
}

/// The members of the first key, in order, whose value is an object.
pub open spec fn pick_obj(members: Seq<JsonMember>, keys: Seq<Seq<char>>) -> Option<Vec<JsonMember>>
    decreases keys.len(),
{
    if keys.len() == 0 {
        None
    } else {
        match member_value(members, keys[0]) {
            Some(JsonValue::Object(o)) => Some(o),
            _ => pick_obj(members, keys.drop_first()),
        }
    }
}

/// The items of the first key, in order, whose value is an array.
pub open spec fn pick_arr(members: Seq<JsonMember>, keys: Seq<Seq<char>>) -> Option<Vec<JsonValue>>
    decreases keys.len(),
{
    if keys.len() == 0 {
        None
    } else {
        match member_value(members, keys[0]) {
            Some(JsonValue::Array(a)) => Some(a),
            _ => pick_arr(members, keys.drop_first()),
        }
    }
}

pub fn text_value(v: &JsonValue) -> (r: Option<String>)
    ensures
        match text_of(*v) {
            Some(t) => r matches Some(x) && x@ == t,
            None => r is None,
        },
{
    match v {
        JsonValue::Text(s) => {
            let t = trim_vec(&chars_of(s.as_str()));
            if t.len() > 0 {
                Some(string_of(&t))
            } else {
                None
            }
        },
        _ => None,
    }
}

pub fn int_value(v: &JsonValue) -> (r: Option<i64>)
    ensures
        r == int_of(*v),
{
    match v {
        JsonValue::Number(n) => match n.exact {
            Some(e) => Some(e),
            None => Some(n.cast),
        },
        JsonValue::Text(s) => {
            let t = trim_vec(&chars_of(s.as_str()));
            if t.len() > 0 {
                crate::num::parse_i64(&t)
            } else {
                None
            }
        },
        _ => None,
    }
}

pub fn pick_string(members: &Vec<JsonMember>, keys: &[&str]) -> (r: Option<String>)
    ensures
        match pick_text(members@, str_views(keys@)) {
            Some(t) => r matches Some(x) && x@ == t,
            None => r is None,
        },
{
    let ghost ks = str_views(keys@);
    let mut i: usize = 0;
    assert(ks.subrange(0, ks.len() as int) =~= ks);
    while i < keys.len()
        invariant
            0 <= i <= keys.len(),
            ks == str_views(keys@),
            pick_text(members@, ks) == pick_text(members@, ks.subrange(i as int, ks.len() as int)),
        decreases keys.len() - i,
    {
        let ghost rest = ks.subrange(i as int, ks.len() as int);
        assert(rest[0] == keys@[i as int]@);
        assert(rest.drop_first() =~= ks.subrange(i + 1, ks.len() as int));
        match member(members, keys[i]) {
            Some(v) => match text_value(v) {
                Some(t) => {
                    return Some(t);
                },
                None => {},
            },
            None => {},
        }
        i = i + 1;
    }
    assert(ks.subrange(i as int, ks.len() as int) =~= Seq::<Seq<char>>::empty());
    None
}

pub fn pick_i64(members: &Vec<JsonMember>, keys: &[&str]) -> (r: Option<i64>)
    ensures
        r == pick_int(members@, str_views(keys@)),
{
    let ghost ks = str_views(keys@);
    let mut i: usize = 0;
    assert(ks.subrange(0, ks.len() as int) =~= ks);
    while i < keys.len()
        invariant
            0 <= i <= keys.len(),
            ks == str_views(keys@),
            pick_int(members@, ks) == pick_int(members@, ks.subrange(i as int, ks.len() as int)),
        decreases keys.len() - i,
    {
        let ghost rest = ks.subrange(i as int, ks.len() as int);
        assert(rest[0] == keys@[i as int]@);
        assert(rest.drop_first() =~= ks.subrange(i + 1, ks.len() as int));
        match member(members, keys[i]) {
            Some(v) => match int_value(v) {
                Some(t) => {
                    return Some(t);
                },
                None => {},
            },
            None => {},
        }
        i = i + 1;
    }
    assert(ks.subrange(i as int, ks.len() as int) =~= Seq::<Seq<char>>::empty());
    None
}

pub fn pick_object<'a>(members: &'a Vec<JsonMember>, keys: &[&str]) -> (r: Option<&'a Vec<JsonMember>>)
    ensures
        match pick_obj(members@, str_views(keys@)) {
            Some(o) => r matches Some(x) && *x == o,
            None => r is None,
        },
{
    let ghost ks = str_views(keys@);
    let mut i: usize = 0;
    assert(ks.subrange(0, ks.len() as int) =~= ks);
    while i < keys.len()
        invariant
            0 <= i <= keys.len(),
            ks == str_views(keys@),
            pick_obj(members@, ks) == pick_obj(members@, ks.subrange(i as int, ks.len() as int)),
        decreases keys.len() - i,
    {
        let ghost rest = ks.subrange(i as int, ks.len() as int);
        assert(rest[0] == keys@[i as int]@);
        assert(rest.drop_first() =~= ks.subrange(i + 1, ks.len() as int));
        match member(members, keys[i]) {
            Some(JsonValue::Object(o)) => {
                return Some(o);
            },
            _ => {},
        }
        i = i + 1;
    }
    assert(ks.subrange(i as int, ks.len() as int) =~= Seq::<Seq<char>>::empty());
    None
}

pub fn pick_array<'a>(members: &'a Vec<JsonMember>, keys: &[&str]) -> (r: Option<&'a Vec<JsonValue>>)
    ensures
        match pick_arr(members@, str_views(keys@)) {
            Some(a) => r matches Some(x) && *x == a,
            None => r is None,
        },
{
    let ghost ks = str_views(keys@);
    let mut i: usize = 0;
    assert(ks.subrange(0, ks.len() as int) =~= ks);
    while i < keys.len()
        invariant
            0 <= i <= keys.len(),
            ks == str_views(keys@),
            pick_arr(members@, ks) == pick_arr(members@, ks.subrange(i as int, ks.len() as int)),
        decreases keys.len() - i,
    {
        let ghost rest = ks.subrange(i as int, ks.len() as int);
        assert(rest[0] == keys@[i as int]@);
        assert(rest.drop_first() =~= ks.subrange(i + 1, ks.len() as int));
        match member(members, keys[i]) {
            Some(JsonValue::Array(a)) => {
                return Some(a);
            },
            _ => {},
        }
        i = i + 1;
    }
    assert(ks.subrange(i as int, ks.len() as int) =~= Seq::<Seq<char>>::empty());
    None
}

} // verus!
