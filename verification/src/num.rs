//! Decimal numbers in text: the grammar that `str::parse` accepts for the
//! integer types used here, and decimal rendering as `format!("{}")` does.

use vstd::prelude::*;

verus! {

pub open spec fn is_digit(c: char) -> bool {
    '0' <= c && c <= '9'
}

pub open spec fn digit_value(c: char) -> nat {
    (c as int - '0' as int) as nat
}

pub open spec fn all_digits(s: Seq<char>) -> bool {
    forall|i: int| 0 <= i < s.len() ==> is_digit(#[trigger] s[i])
}

/// The number that a run of decimal digits spells.
pub open spec fn digits_value(s: Seq<char>) -> nat
    decreases s.len(),
{
    if s.len() == 0 {
        0
    } else {
        digits_value(s.drop_last()) * 10 + digit_value(s.last())
    }
}

/// A non-empty run of ASCII digits whose value is at most `max`.
pub open spec fn dec_in_range(s: Seq<char>, max: nat) -> Option<nat> {
    if s.len() > 0 && all_digits(s) && digits_value(s) <= max {
        Some(digits_value(s))
    } else {
        None
    }
}

/// What `str::parse` gives for an unsigned type with maximum `max`: an
/// optional `+`, then at least one ASCII digit, and a value in range.
pub open spec fn parse_unsigned(s: Seq<char>, max: nat) -> Option<nat> {
    if s.len() > 0 && s[0] == '+' {
        dec_in_range(s.drop_first(), max)
    } else {
        dec_in_range(s, max)
    }
}

/// What `str::parse::<i64>` gives: an optional sign, then at least one
/// ASCII digit, and a value in the range of `i64`.
pub open spec fn parse_i64_spec(s: Seq<char>) -> Option<int> {
    if s.len() > 0 && s[0] == '-' {
        match dec_in_range(s.drop_first(), 0x8000_0000_0000_0000) {
            Some(v) => Some(-(v as int)),
            None => None,
        }
    } else {
        match parse_unsigned(s, 0x7fff_ffff_ffff_ffff) {
            Some(v) => Some(v as int),
            None => None,
        }
    }
}

proof fn lemma_digits_value_step(s: Seq<char>, k: int)
    requires
        0 <= k < s.len(),
    ensures
        digits_value(s.subrange(0, k + 1)) == digits_value(s.subrange(0, k)) * 10 + digit_value(
            s[k],
        ),
{
    assert(s.subrange(0, k + 1).drop_last() =~= s.subrange(0, k));
}

proof fn lemma_digits_value_monotone(s: Seq<char>, k: int)
    requires
        0 <= k <= s.len(),
        all_digits(s),
    ensures
        digits_value(s.subrange(0, k)) <= digits_value(s),
    decreases s.len() - k,
{
    if k < s.len() {
        lemma_digits_value_monotone(s, k + 1);
        lemma_digits_value_step(s, k);
    } else {
        assert(s.subrange(0, k) =~= s);
    }
}

/// Value of the digits `s[from..to]` if all are ASCII digits, not empty, and
/// at most `max`; `max` must leave room for one more decimal digit in `u64`.
fn dec_range_u64(s: &[char], from: usize, to: usize, max: u64) -> (r: Option<u64>)
    requires
        from <= to <= s@.len(),
        max >= 9,
    ensures
        r == (match dec_in_range(s@.subrange(from as int, to as int), max as nat) {
            Some(v) => Some(v as u64),
            None => None::<u64>,
        }),
{
    let ghost t = s@.subrange(from as int, to as int);
    if from == to {
        return None;
    }
    let mut k = from;
    let mut v: u64 = 0;
    while k < to
        invariant
            from <= k <= to <= s@.len(),
            t == s@.subrange(from as int, to as int),
            all_digits(t.subrange(0, k - from)),
            v as nat == digits_value(t.subrange(0, k - from)),
            v <= max,
            max >= 9,
        decreases to - k,
    {
        let c = s[k];
        if !('0' <= c && c <= '9') {
            assert(t[k - from] == s@[k as int]);
            assert(!all_digits(t));
            return None;
        }
        let d = (c as u32 - '0' as u32) as u64;
        proof {
            lemma_digits_value_step(t, k - from);
        }
        if v > (max - d) / 10 {
            proof {
                let w = digits_value(t.subrange(0, k - from + 1));
                assert(w > max) by (nonlinear_arith)
                    requires
                        w == v * 10 + d,
                        v > (max - d) / 10,
                        d <= 9,
                        9 <= max,
                ;
                assert(all_digits(t.subrange(0, k - from + 1)) ==> all_digits(t)
                    ==> digits_value(t.subrange(0, k - from + 1)) <= digits_value(t)) by {
                    if all_digits(t) {
                        lemma_digits_value_monotone(t, k - from + 1);
                    }
                }
                assert(all_digits(t.subrange(0, k - from + 1)));
            }
            return None;
        }
        assert(v * 10 + d <= max) by (nonlinear_arith)
            requires
                v <= (max - d) / 10,
                d <= 9,
                9 <= max,
        ;
        v = v * 10 + d;
        k = k + 1;
        assert(all_digits(t.subrange(0, k - from)));
    }
    assert(t.subrange(0, to - from) =~= t);
    Some(v)
}

/// A non-empty run of ASCII digits that fits in `u32` (what `\d+` followed
/// by `parse::<u32>` accepts).
pub fn dec_u32(s: &[char]) -> (r: Option<u32>)
    ensures
        r == (match dec_in_range(s@, u32::MAX as nat) {
            Some(v) => Some(v as u32),
            None => None::<u32>,
        }),
{
    assert(s@.subrange(0, s@.len() as int) =~= s@);
    match dec_range_u64(s, 0, s.len(), u32::MAX as u64) {
        Some(v) => Some(v as u32),
        None => None,
    }
}

/// `str::parse::<u64>` on `s[from..to]`.
pub fn parse_u64_range(s: &[char], from: usize, to: usize) -> (r: Option<u64>)
    requires
        from <= to <= s@.len(),
    ensures
        r == (match parse_unsigned(s@.subrange(from as int, to as int), u64::MAX as nat) {
            Some(v) => Some(v as u64),
            None => None::<u64>,
        }),
{
    let ghost t = s@.subrange(from as int, to as int);
    if from < to && s[from] == '+' {
        assert(t.drop_first() =~= s@.subrange(from + 1, to as int));
        dec_range_u64(s, from + 1, to, u64::MAX)
    } else {
        dec_range_u64(s, from, to, u64::MAX)
    }
}

/// `str::parse::<u64>`.
pub fn parse_u64(s: &[char]) -> (r: Option<u64>)
    ensures
        r == (match parse_unsigned(s@, u64::MAX as nat) {
            Some(v) => Some(v as u64),
            None => None::<u64>,
        }),
{
    assert(s@.subrange(0, s@.len() as int) =~= s@);
    parse_u64_range(s, 0, s.len())
}

/// `str::parse::<u32>`.
pub fn parse_u32(s: &[char]) -> (r: Option<u32>)
    ensures
        r == (match parse_unsigned(s@, u32::MAX as nat) {
            Some(v) => Some(v as u32),
            None => None::<u32>,
        }),
{
    assert(s@.subrange(0, s@.len() as int) =~= s@);
    let ghost t = s@;
    let r = if s.len() > 0 && s[0] == '+' {
        assert(t.drop_first() =~= s@.subrange(1, s@.len() as int));
        dec_range_u64(s, 1, s.len(), u32::MAX as u64)
    } else {
        dec_range_u64(s, 0, s.len(), u32::MAX as u64)
    };
    match r {
        Some(v) => Some(v as u32),
        None => None,
    }
}

/// `str::parse::<u8>`.
pub fn parse_u8(s: &[char]) -> (r: Option<u8>)
    ensures
        r == (match parse_unsigned(s@, u8::MAX as nat) {
            Some(v) => Some(v as u8),
            None => None::<u8>,
        }),
{
    assert(s@.subrange(0, s@.len() as int) =~= s@);
    let ghost t = s@;
    let r = if s.len() > 0 && s[0] == '+' {
        assert(t.drop_first() =~= s@.subrange(1, s@.len() as int));
        dec_range_u64(s, 1, s.len(), u8::MAX as u64)
    } else {
        dec_range_u64(s, 0, s.len(), u8::MAX as u64)
    };
    match r {
        Some(v) => Some(v as u8),
        None => None,
    }
}

/// `str::parse::<i64>`.
pub fn parse_i64(s: &[char]) -> (r: Option<i64>)
    ensures
        r == (match parse_i64_spec(s@) {
            Some(v) => Some(v as i64),
            None => None::<i64>,
        }),
{
    assert(s@.subrange(0, s@.len() as int) =~= s@);
    let ghost t = s@;
    if s.len() > 0 && s[0] == '-' {
        assert(t.drop_first() =~= s@.subrange(1, s@.len() as int));
        match dec_range_u64(s, 1, s.len(), 0x8000_0000_0000_0000u64) {
            Some(v) => {
                if v == 0x8000_0000_0000_0000u64 {
                    Some(i64::MIN)
                } else {
                    Some(-(v as i64))
                }
            },
            None => None,
        }
    } else {
        let r = if s.len() > 0 && s[0] == '+' {
            assert(t.drop_first() =~= s@.subrange(1, s@.len() as int));
            dec_range_u64(s, 1, s.len(), 0x7fff_ffff_ffff_ffffu64)
        } else {
            dec_range_u64(s, 0, s.len(), 0x7fff_ffff_ffff_ffffu64)
        };
        match r {
            Some(v) => Some(v as i64),
            None => None,
        }
    }
}

/// The decimal rendering of `n`, as `format!("{}", n)` writes it.
pub open spec fn dec(n: nat) -> Seq<char>
    decreases n,
{
    if n < 10 {
        seq![digit_char(n)]
    } else {
        dec(n / 10).push(digit_char(n % 10))
    }
}

pub open spec fn digit_char(d: nat) -> char {
    ('0' as int + d) as char
}

/// `format!("{:02}", n)`: at least two digits, padded with a zero.
pub open spec fn dec2(n: nat) -> Seq<char> {
    if n < 10 {
        seq!['0'].add(dec(n))
    } else {
        dec(n)
    }
}

fn digit_of(d: u64) -> (c: char)
    requires
        d < 10,
    ensures
        c == digit_char(d as nat),
{
    if d == 0 { '0' }
    else if d == 1 { '1' }
    else if d == 2 { '2' }
    else if d == 3 { '3' }
    else if d == 4 { '4' }
    else if d == 5 { '5' }
    else if d == 6 { '6' }
    else if d == 7 { '7' }
    else if d == 8 { '8' }
    else { '9' }
}

/// Decimal digits of `n`.
pub fn dec_vec(n: u64) -> (r: Vec<char>)
    ensures
        r@ == dec(n as nat),
    decreases n,
{
    if n < 10 {
        let mut v = Vec::new();
        v.push(digit_of(n));
        assert(v@ =~= dec(n as nat));
        v
    } else {
        let mut v = dec_vec(n / 10);
        v.push(digit_of(n % 10));
        v
    }
}

/// Decimal digits of `n`, padded to at least two.
pub fn dec2_vec(n: u64) -> (r: Vec<char>)
    ensures
        r@ == dec2(n as nat),
{
    if n < 10 {
        let mut v = Vec::new();
        v.push('0');
        v.push(digit_of(n));
        assert(v@ =~= dec2(n as nat));
        v
    } else {
        dec_vec(n)
    }
}

} // verus!
