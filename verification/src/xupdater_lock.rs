//! The guard that refuses to update, through this manager, an add-on that
//! keeps an X-Updater profile and no Skunkcrafts configuration: the refusal
//! carries a short digest of what was asked, so that reports can be told
//! apart without showing paths.

use vstd::prelude::*;
use crate::text::{chars_of, push_all, string_of};

verus! {

/// One byte folded into the digest: mixed by a multiplication, rotated
/// left by 7 bits, and offset (all modulo 2^32).
pub open spec fn digest_step(h: u32, b: u8) -> u32 {
    let x = h ^ (((b as int) * 0x85EB_CA6B) % 0x1_0000_0000) as u32;
    let r = (x << 7u32) | (x >> 25u32);
    (((r as int) + 0xC2B2_AE35) % 0x1_0000_0000) as u32
}

pub open spec fn digest_bytes(h: u32, bytes: Seq<u8>) -> u32
    decreases bytes.len(),
{
    if bytes.len() == 0 {
        h
    } else {
        digest_step(digest_bytes(h, bytes.drop_last()), bytes.last())
    }
}

/// The digest of a refused request: the bytes of the item type, folder and
/// target path folded into a seed made from the item type's length.
pub open spec fn request_digest(item_type: Seq<char>, folder_name: Seq<char>, target_path: Seq<char>) -> u32 {
    let t = vstd::utf8::encode_utf8(item_type);
    let seed = 0xB529_7A4Du32 ^ (t.len() as u32);
    digest_bytes(seed, t + vstd::utf8::encode_utf8(folder_name) + vstd::utf8::encode_utf8(target_path))
        ^ 0x6A09_E667u32
}

pub open spec fn hex_upper_digit(n: int) -> char {
    if n < 10 {
        (48 + n) as char
    } else {
        (55 + n) as char
    }
}

/// A 32-bit number as eight upper-case hexadecimal digits.
pub open spec fn hex8_upper(v: u32) -> Seq<char> {
    seq![
        hex_upper_digit(v as int / 0x1000_0000),
        hex_upper_digit((v as int / 0x100_0000) % 16),
        hex_upper_digit((v as int / 0x10_0000) % 16),
        hex_upper_digit((v as int / 0x1_0000) % 16),
        hex_upper_digit((v as int / 0x1000) % 16),
        hex_upper_digit((v as int / 0x100) % 16),
        hex_upper_digit((v as int / 0x10) % 16),
        hex_upper_digit(v as int % 16),
    ]
}

fn hex_upper_char(n: u32) -> (c: char)
    requires
        n < 16,
    ensures
        c == hex_upper_digit(n as int),
{
    if n < 10 {
        ((48 + n) as u8) as char
    } else {
        ((55 + n) as u8) as char
    }
}

fn digest_step_exec(h: u32, b: u8) -> (r: u32)
    ensures
        r == digest_step(h, b),
{
    let m = ((b as u64 * 0x85EB_CA6Bu64) % 0x1_0000_0000u64) as u32;
    let x = h ^ m;
    let r = (x << 7u32) | (x >> 25u32);
    ((r as u64 + 0xC2B2_AE35u64) % 0x1_0000_0000u64) as u32
}

fn digest_over(h: u32, bytes: &[u8]) -> (r: u32)
    ensures
        r == digest_bytes(h, bytes@),
{
    let mut acc = h;
    let mut i: usize = 0;
    while i < bytes.len()
        invariant
            0 <= i <= bytes.len(),
            acc == digest_bytes(h, bytes@.subrange(0, i as int)),
        decreases bytes.len() - i,
    {
        assert(bytes@.subrange(0, i + 1).drop_last() =~= bytes@.subrange(0, i as int));
        acc = digest_step_exec(acc, bytes[i]);
        i = i + 1;
    }
    assert(bytes@.subrange(0, bytes@.len() as int) =~= bytes@);
    acc
}

proof fn lemma_digest_concat(h: u32, a: Seq<u8>, b: Seq<u8>)
    ensures
        digest_bytes(h, a + b) == digest_bytes(digest_bytes(h, a), b),
    decreases b.len(),
{
    if b.len() == 0 {
        assert(a + b =~= a);
    } else {
        lemma_digest_concat(h, a, b.drop_last());
        assert((a + b).drop_last() =~= a + b.drop_last());
        assert((a + b).last() == b.last());
    }
}

/// The error that refuses a request, with its digest.
pub open spec fn block_message(item_type: Seq<char>, folder_name: Seq<char>, target_path: Seq<char>) -> Seq<char> {
    "pipeline digest mismatch ["@ + hex8_upper(request_digest(item_type, folder_name, target_path)) + "]"@
}

pub fn obfuscated_xupdater_block_error(item_type: &str, folder_name: &str, target_path: &str) -> (r: String)
    ensures
        r@ == block_message(item_type@, folder_name@, target_path@),
{
    let t = item_type.as_bytes();
    let f = folder_name.as_bytes();
    let p = target_path.as_bytes();
    let seed = 0xB529_7A4Du32 ^ (t.len() as u32);
    let h1 = digest_over(seed, t);
    let h2 = digest_over(h1, f);
    let h3 = digest_over(h2, p);
    proof {
        lemma_digest_concat(seed, t@, f@);
        lemma_digest_concat(seed, t@ + f@, p@);
    }
    let v = h3 ^ 0x6A09_E667u32;
    let mut out = chars_of("pipeline digest mismatch [");
    let digits: Vec<char> = vec![
        hex_upper_char(v / 0x1000_0000),
        hex_upper_char((v / 0x100_0000) % 16),
        hex_upper_char((v / 0x10_0000) % 16),
        hex_upper_char((v / 0x1_0000) % 16),
        hex_upper_char((v / 0x1000) % 16),
        hex_upper_char((v / 0x100) % 16),
        hex_upper_char((v / 0x10) % 16),
        hex_upper_char(v % 16),
    ];
    assert(digits@ =~= hex8_upper(v));
    push_all(&mut out, &digits);
    push_all(&mut out, &chars_of("]"));
    string_of(&out)
}

/// Whether an update of an add-on goes ahead: always when it has a
/// Skunkcrafts configuration, else not when it keeps an X-Updater profile.
pub fn enforce_obfuscated_xupdater_lock(
    item_type: &str,
    folder_name: &str,
    target_path: &str,
    has_skunk_cfg: bool,
    has_xupdater_profile: bool,
) -> (r: Result<(), String>)
    ensures
        (has_skunk_cfg || !has_xupdater_profile) ==> r is Ok,
        (!has_skunk_cfg && has_xupdater_profile) ==> (r matches Err(e) && e@ == block_message(
            item_type@,
            folder_name@,
            target_path@,
        )),
{
    if has_skunk_cfg {
        return Ok(());
    }
    if has_xupdater_profile {
        return Err(obfuscated_xupdater_block_error(item_type, folder_name, target_path));
    }
    Ok(())
}

} // verus!
