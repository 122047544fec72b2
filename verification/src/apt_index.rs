//! The byte-offset index of airports in `apt.dat` files: where each airport
//! block lies in the file, kept up to date when one block is rewritten so
//! that the next switch can rewrite that block alone.

use vstd::prelude::*;
use crate::flatten::{
    airport_blocks, close_current, first_matching_from, parse_airport_blocks, rebuild, scan_lines,
    scan_step, set_flatten_lines, set_flatten_state_in_text, AptBlockView,
};
use crate::gateway_payload::{insert_ordered, lemma_insert_ordered_at, sort_ordered};
use crate::text::{
    lines,
    chars_of, eq_chars, eq_ignore_ascii_case, eq_ignore_ascii_case_exec, seqs, string_of,
};

verus! {

/// A line of an `apt.dat` file as it was read: its text without the line
/// ending, and the number of bytes it took in the file, ending included.
#[derive(Debug, Clone)]
pub struct ScannedLine {
    pub text: String,
    pub byte_len: u64,
}

/// An airport of the index: code, name, whether it is flattened, and the
/// bytes `byte_start..byte_end` of its block in the file.
#[derive(Debug, Clone)]
pub struct CachedAirportRecord {
    pub icao: String,
    pub airport_name: String,
    pub flattened: bool,
    pub byte_start: u64,
    pub byte_end: u64,
}

/// A record as plain values: code, name, flattened, start, end.
pub type RecordView = (Seq<char>, Seq<char>, bool, int, int);

pub open spec fn record_view(r: CachedAirportRecord) -> RecordView {
    (r.icao@, r.airport_name@, r.flattened, r.byte_start as int, r.byte_end as int)
}

pub open spec fn record_views(v: Seq<CachedAirportRecord>) -> Seq<RecordView> {
    v.map_values(|r: CachedAirportRecord| record_view(r))
}

/// Bytes `byte_start..byte_end` of every record are in order and do not
/// overlap: each starts no later than it ends, and ends no later than the
/// next one starts.
pub open spec fn records_ordered(rs: Seq<RecordView>) -> bool {
    &&& forall|i: int| 0 <= i < rs.len() ==> (#[trigger] rs[i]).3 <= rs[i].4
    &&& forall|i: int, j: int| 0 <= i < j < rs.len() ==> (#[trigger] rs[i]).4 <= (#[trigger] rs[j]).3
}

pub open spec fn line_texts(lines: Seq<ScannedLine>) -> Seq<Seq<char>> {
    lines.map_values(|l: ScannedLine| l.text@)
}

/// The number of bytes of the first `k` lines.
pub open spec fn bytes_before(lines: Seq<ScannedLine>, k: int) -> int
    decreases k,
{
    if k <= 0 {
        0
    } else {
        bytes_before(lines, k - 1) + lines[k - 1].byte_len
    }
}

pub open spec fn record_of_block(b: AptBlockView, lines: Seq<ScannedLine>) -> RecordView {
    (b.icao, b.name, b.flattened, bytes_before(lines, b.start), bytes_before(lines, b.end))
}

/// The airport blocks of the lines, their line numbers turned into byte
/// offsets.
pub open spec fn cache_records(lines: Seq<ScannedLine>) -> Seq<RecordView> {
    airport_blocks(line_texts(lines)).map_values(|b: AptBlockView| record_of_block(b, lines))
}

/// Blocks lie within `0..n` lines, each non-empty, in order, not overlapping.
pub open spec fn blocks_ordered(bs: Seq<AptBlockView>, n: int) -> bool {
    &&& forall|i: int| 0 <= i < bs.len() ==> 0 <= (#[trigger] bs[i]).start < bs[i].end <= n
    &&& forall|i: int, j: int| 0 <= i < j < bs.len() ==> (#[trigger] bs[i]).end <= (#[trigger] bs[j]).start
}

proof fn lemma_scan_ordered(lines: Seq<Seq<char>>)
    ensures
        blocks_ordered(scan_lines(lines).0, lines.len() as int),
        scan_lines(lines).1 matches Some(b) ==> (0 <= b.start < lines.len() && forall|i: int|
            0 <= i < scan_lines(lines).0.len() ==> (#[trigger] scan_lines(lines).0[i]).end <= b.start),
    decreases lines.len(),
{
    if lines.len() > 0 {
        let prev = lines.drop_last();
        lemma_scan_ordered(prev);
        let n = lines.len() - 1;
        let s = scan_lines(prev);
        assert(scan_lines(lines) == scan_step(s, lines.last(), n));
        let closed = close_current(s, n);
        assert(blocks_ordered(closed, lines.len() as int)) by {
            if s.1 is Some {
                assert forall|i: int| 0 <= i < closed.len() implies 0 <= (#[trigger] closed[i]).start
                    < closed[i].end <= lines.len() by {
                    if i < s.0.len() {
                        assert(closed[i] == s.0[i]);
                    }
                }
                assert forall|i: int, j: int| 0 <= i < j < closed.len() implies (
                #[trigger] closed[i]).end <= (#[trigger] closed[j]).start by {
                    assert(closed[i] == s.0[i]);
                    if j < s.0.len() {
                        assert(closed[j] == s.0[j]);
                    }
                }
            }
        }
    }
}

proof fn lemma_blocks_ordered(lines: Seq<Seq<char>>)
    ensures
        blocks_ordered(airport_blocks(lines), lines.len() as int),
{
    lemma_scan_ordered(lines);
    let s = scan_lines(lines);
    let bs = airport_blocks(lines);
    if s.1 is Some {
        assert forall|i: int| 0 <= i < bs.len() implies 0 <= (#[trigger] bs[i]).start < bs[i].end
            <= lines.len() by {
            if i < s.0.len() {
                assert(bs[i] == s.0[i]);
            }
        }
        assert forall|i: int, j: int| 0 <= i < j < bs.len() implies (#[trigger] bs[i]).end <= (
        #[trigger] bs[j]).start by {
            assert(bs[i] == s.0[i]);
            if j < s.0.len() {
                assert(bs[j] == s.0[j]);
            }
        }
    }
}

proof fn lemma_bytes_before_mono(lines: Seq<ScannedLine>, a: int, b: int)
    requires
        0 <= a <= b,
    ensures
        bytes_before(lines, a) <= bytes_before(lines, b),
    decreases b - a,
{
    if a < b {
        lemma_bytes_before_mono(lines, a, b - 1);
    }
}

/// The line endings (`\n`, `\r`) at the end of a line of bytes taken off.
pub open spec fn without_line_ending(line: Seq<u8>) -> Seq<u8>
    decreases line.len(),
{
    if line.len() > 0 && (line.last() == 10u8 || line.last() == 13u8) {
        without_line_ending(line.drop_last())
    } else {
        line
    }
}

pub fn trim_line_bytes(line: &[u8]) -> (r: Vec<u8>)
    ensures
        r@ == without_line_ending(line@),
{
    let mut end = line.len();
    assert(line@.subrange(0, end as int) =~= line@);
    while end > 0 && (line[end - 1] == 10u8 || line[end - 1] == 13u8)
        invariant
            0 <= end <= line.len(),
            without_line_ending(line@) == without_line_ending(line@.subrange(0, end as int)),
        decreases end,
    {
        assert(line@.subrange(0, end as int).drop_last() =~= line@.subrange(0, end - 1));
        end = end - 1;
    }
    let mut out: Vec<u8> = Vec::new();
    let mut i: usize = 0;
    while i < end
        invariant
            0 <= i <= end <= line.len(),
            out@ == line@.subrange(0, i as int),
        decreases end - i,
    {
        out.push(line[i]);
        assert(out@ =~= line@.subrange(0, i + 1));
        i = i + 1;
    }
    proof {
        let s = line@.subrange(0, end as int);
        if end == 0 {
            assert(without_line_ending(s) == s);
        } else {
            assert(s.last() == line@[end - 1]);
        }
    }
    out
}

/// The index records of the lines of an `apt.dat` file: its airport blocks
/// with their byte offsets. The records are in file order and do not
/// overlap, and none goes past the end of the file.
pub fn scan_apt_lines_for_cache(lines: &Vec<ScannedLine>) -> (r: Vec<CachedAirportRecord>)
    requires
        bytes_before(lines@, lines@.len() as int) <= u64::MAX,
    ensures
        record_views(r@) == cache_records(lines@),
        records_ordered(record_views(r@)),
        forall|i: int| 0 <= i < r@.len() ==> (#[trigger] r@[i]).byte_end <= bytes_before(lines@, lines@.len() as int),
{
    let ghost n = lines@.len() as int;
    let mut texts: Vec<Vec<char>> = Vec::new();
    let mut offsets: Vec<u64> = Vec::new();
    offsets.push(0);
    let mut i: usize = 0;
    while i < lines.len()
        invariant
            0 <= i <= lines.len(),
            n == lines@.len(),
            bytes_before(lines@, n) <= u64::MAX,
            offsets@.len() == i + 1,
            texts@.len() == i,
            forall|k: int| 0 <= k <= i ==> #[trigger] offsets@[k] == bytes_before(lines@, k),
            seqs(texts@) == line_texts(lines@.subrange(0, i as int)),
        decreases lines.len() - i,
    {
        proof {
            lemma_bytes_before_mono(lines@, i + 1, n);
        }
        let next = offsets[i] + lines[i].byte_len;
        offsets.push(next);
        let t = chars_of(lines[i].text.as_str());
        let ghost before = texts@;
        texts.push(t);
        assert forall|q: int| 0 <= q <= i implies #[trigger] seqs(texts@)[q] == line_texts(
            lines@.subrange(0, i + 1),
        )[q] by {
            if q < i {
                assert(texts@[q] == before[q]);
                assert(seqs(before)[q] == line_texts(lines@.subrange(0, i as int))[q]);
            }
        }
        assert(seqs(texts@) =~= line_texts(lines@.subrange(0, i + 1)));
        i = i + 1;
    }
    assert(lines@.subrange(0, n) =~= lines@);
    let blocks = parse_airport_blocks(&texts);
    let ghost bs = airport_blocks(line_texts(lines@));
    proof {
        lemma_blocks_ordered(line_texts(lines@));
    }
    let mut out: Vec<CachedAirportRecord> = Vec::new();
    let mut k: usize = 0;
    while k < blocks.len()
        invariant
            0 <= k <= blocks.len(),
            n == lines@.len(),
            offsets@.len() == n + 1,
            forall|q: int| 0 <= q <= n ==> #[trigger] offsets@[q] == bytes_before(lines@, q),
            crate::flatten::block_views(blocks@) == bs,
            bs == airport_blocks(line_texts(lines@)),
            blocks_ordered(bs, n),
            record_views(out@) == bs.subrange(0, k as int).map_values(
                |b: AptBlockView| record_of_block(b, lines@),
            ),
        decreases blocks.len() - k,
    {
        let b = &blocks[k];
        assert(bs[k as int] == blocks@[k as int]@);
        let rec = CachedAirportRecord {
            icao: string_of(&chars_of(b.icao.as_str())),
            airport_name: string_of(&chars_of(b.name.as_str())),
            flattened: b.flattened,
            byte_start: offsets[b.start],
            byte_end: offsets[b.end],
        };
        let ghost before = record_views(out@);
        assert(record_view(rec) == record_of_block(bs[k as int], lines@));
        out.push(rec);
        assert(record_views(out@) =~= before.push(record_view(rec)));
        assert(record_views(out@) =~= bs.subrange(0, k + 1).map_values(
            |b: AptBlockView| record_of_block(b, lines@),
        ));
        k = k + 1;
    }
    assert(bs.subrange(0, bs.len() as int) =~= bs);
    let ghost rs = record_views(out@);
    assert(rs == cache_records(lines@));
    assert forall|i: int| 0 <= i < rs.len() implies (#[trigger] rs[i]).3 <= rs[i].4 by {
        lemma_bytes_before_mono(lines@, bs[i].start, bs[i].end);
    }
    assert forall|i: int, j: int| 0 <= i < j < rs.len() implies (#[trigger] rs[i]).4 <= (
    #[trigger] rs[j]).3 by {
        assert(bs[i].end <= bs[j].start);
        lemma_bytes_before_mono(lines@, bs[i].end, bs[j].start);
    }
    assert forall|i: int| 0 <= i < out@.len() implies (#[trigger] out@[i]).byte_end <= bytes_before(
        lines@,
        n,
    ) by {
        assert(rs[i] == record_view(out@[i]));
        lemma_bytes_before_mono(lines@, bs[i].end, n);
    }
    out
}


/// The index of the last record with exactly this code.
pub open spec fn find_icao(acc: Seq<RecordView>, icao: Seq<char>) -> Option<int>
    decreases acc.len(),
{
    if acc.len() == 0 {
        None
    } else if acc.last().0 == icao {
        Some(acc.len() - 1)
    } else {
        find_icao(acc.drop_last(), icao)
    }
}

/// Two records of one airport made one: flattened only when both are,
/// spanning both byte ranges.
pub open spec fn merge_record(a: RecordView, b: RecordView) -> RecordView {
    (
        a.0,
        a.1,
        a.2 && b.2,
        if b.3 < a.3 { b.3 } else { a.3 },
        if b.4 > a.4 { b.4 } else { a.4 },
    )
}

pub open spec fn merge_into(acc: Seq<RecordView>, r: RecordView) -> Seq<RecordView> {
    match find_icao(acc, r.0) {
        Some(i) => acc.update(i, merge_record(acc[i], r)),
        None => acc.push(r),
    }
}

pub open spec fn merged_records(s: Seq<RecordView>) -> Seq<RecordView>
    decreases s.len(),
{
    if s.len() == 0 {
        Seq::empty()
    } else {
        merge_into(merged_records(s.drop_last()), s.last())
    }
}

pub open spec fn icao_before(a: RecordView, b: RecordView) -> bool {
    crate::text::seq_less(a.0, b.0)
}

/// One record per code, merged, sorted by code.
pub open spec fn compressed_records(s: Seq<RecordView>) -> Seq<RecordView> {
    sort_ordered(merged_records(s), |a: RecordView, b: RecordView| icao_before(a, b))
}

proof fn lemma_find_icao(acc: Seq<RecordView>, icao: Seq<char>)
    ensures
        find_icao(acc, icao) matches Some(i) ==> 0 <= i < acc.len() && acc[i].0 == icao,
        find_icao(acc, icao) is None ==> forall|i: int| 0 <= i < acc.len() ==> (#[trigger] acc[i]).0 != icao,
    decreases acc.len(),
{
    if acc.len() > 0 {
        lemma_find_icao(acc.drop_last(), icao);
        if acc.last().0 != icao {
            if find_icao(acc, icao) is None {
                assert forall|i: int| 0 <= i < acc.len() implies (#[trigger] acc[i]).0 != icao by {
                    if i < acc.len() - 1 {
                        assert(acc[i] == acc.drop_last()[i]);
                    }
                }
            }
        }
    }
}

fn find_icao_exec(acc: &Vec<CachedAirportRecord>, icao: &[char]) -> (r: Option<usize>)
    ensures
        match r {
            Some(i) => find_icao(record_views(acc@), icao@) == Some(i as int),
            None => find_icao(record_views(acc@), icao@) is None,
        },
{
    let ghost all = record_views(acc@);
    let mut j: usize = acc.len();
    assert(all.subrange(0, j as int) =~= all);
    while j > 0
        invariant
            0 <= j <= acc.len(),
            all == record_views(acc@),
            find_icao(all, icao@) == find_icao(all.subrange(0, j as int), icao@),
        decreases j,
    {
        let ghost sub = all.subrange(0, j as int);
        assert(sub.last() == record_view(acc@[j - 1]));
        assert(sub.drop_last() =~= all.subrange(0, j - 1));
        if eq_chars(&chars_of(acc[j - 1].icao.as_str()), icao) {
            return Some(j - 1);
        }
        j = j - 1;
    }
    None
}

/// The index records of a file, one per airport code: records of one code
/// are merged (flattened only when all are, spanning all their bytes, named
/// as the first), and the result is sorted by code.
pub fn compress_airports_for_cache(airports: Vec<CachedAirportRecord>) -> (r: Vec<CachedAirportRecord>)
    ensures
        record_views(r@) == compressed_records(record_views(airports@)),
{
    let ghost all = record_views(airports@);
    let mut unique: Vec<CachedAirportRecord> = Vec::new();
    let mut i: usize = 0;
    while i < airports.len()
        invariant
            0 <= i <= airports.len(),
            all == record_views(airports@),
            record_views(unique@) == merged_records(all.subrange(0, i as int)),
        decreases airports.len() - i,
    {
        let ghost sub = all.subrange(0, i + 1);
        assert(sub.drop_last() =~= all.subrange(0, i as int));
        assert(sub.last() == record_view(airports@[i as int]));
        let a = &airports[i];
        let code = chars_of(a.icao.as_str());
        let ghost before = record_views(unique@);
        proof {
            lemma_find_icao(before, a.icao@);
        }
        match find_icao_exec(&unique, &code) {
            Some(k) => {
                let old = &unique[k];
                let merged = CachedAirportRecord {
                    icao: string_of(&chars_of(old.icao.as_str())),
                    airport_name: string_of(&chars_of(old.airport_name.as_str())),
                    flattened: old.flattened && a.flattened,
                    byte_start: if a.byte_start < old.byte_start { a.byte_start } else { old.byte_start },
                    byte_end: if a.byte_end > old.byte_end { a.byte_end } else { old.byte_end },
                };
                assert(record_view(merged) == merge_record(before[k as int], record_view(*a)));
                unique.set(k, merged);
                assert(record_views(unique@) =~= before.update(k as int, record_view(merged)));
            },
            None => {
                let copy = CachedAirportRecord {
                    icao: string_of(&code),
                    airport_name: string_of(&chars_of(a.airport_name.as_str())),
                    flattened: a.flattened,
                    byte_start: a.byte_start,
                    byte_end: a.byte_end,
                };
                unique.push(copy);
                assert(record_views(unique@) =~= before.push(record_view(*a)));
            },
        }
        i = i + 1;
    }
    assert(all.subrange(0, airports@.len() as int) =~= all);
    let ghost f = |a: RecordView, b: RecordView| icao_before(a, b);
    let ghost m = record_views(unique@);
    let n = unique.len();
    let mut rest = unique;
    let mut out: Vec<CachedAirportRecord> = Vec::new();
    assert(m.subrange(0, 0) =~= Seq::<RecordView>::empty());
    assert(record_views(rest@) =~= m.subrange(0, n as int));
    assert(record_views(out@) =~= Seq::<RecordView>::empty());
    while rest.len() > 0
        invariant
            rest.len() <= n,
            n == m.len(),
            f == (|a: RecordView, b: RecordView| icao_before(a, b)),
            record_views(rest@) == m.subrange((n - rest.len()) as int, n as int),
            record_views(out@) == sort_ordered(m.subrange(0, (n - rest.len()) as int), f),
        decreases rest.len(),
    {
        let ghost k = (n - rest.len()) as int;
        let ghost rv = record_views(rest@);
        let x = rest.remove(0);
        assert(record_view(x) == rv[0]);
        assert(m[k] == rv[0]);
        assert(record_views(rest@) =~= rv.drop_first());
        assert(m.subrange(k, n as int).drop_first() =~= m.subrange(k + 1, n as int));
        assert(m.subrange(0, k + 1).drop_last() =~= m.subrange(0, k));
        assert(m.subrange(0, k + 1).last() == m[k]);
        let ghost sv = record_views(out@);
        let xc = chars_of(x.icao.as_str());
        let mut p: usize = out.len();
        while p > 0 && crate::text::chars_less(&xc, &chars_of(out[p - 1].icao.as_str()))
            invariant
                0 <= p <= out.len(),
                sv == record_views(out@),
                xc@ == x.icao@,
                forall|q: int| p <= q < sv.len() ==> icao_before(record_view(x), #[trigger] sv[q]),
            decreases p,
        {
            assert(sv[p - 1] == record_view(out@[p - 1]));
            p = p - 1;
        }
        proof {
            if p > 0 {
                assert(sv[p - 1] == record_view(out@[p - 1]));
            }
            assert forall|q: int| p <= q < sv.len() implies f(record_view(x), #[trigger] sv[q]) by {}
            lemma_insert_ordered_at(sv, record_view(x), f, p as int);
        }
        out.insert(p, x);
        assert(record_views(out@) =~= sv.subrange(0, p as int).push(m[k]) + sv.subrange(p as int, sv.len() as int));
    }
    assert(m.subrange(0, n as int) =~= m);
    out
}


/// An offset moved by `delta`, wrapping as a 64-bit offset does.
pub open spec fn wrap_u64(x: int) -> int {
    x % 0x1_0000_0000_0000_0000int
}

fn shift_offset(v: u64, delta: i64) -> (r: u64)
    ensures
        r == wrap_u64(v + delta),
{
    let s: i128 = v as i128 + delta as i128;
    if s < 0 {
        let w = s + 0x1_0000_0000_0000_0000i128;
        assert(w == wrap_u64(v + delta));
        w as u64
    } else if s >= 0x1_0000_0000_0000_0000i128 {
        let w = s - 0x1_0000_0000_0000_0000i128;
        assert(w == wrap_u64(v + delta));
        w as u64
    } else {
        assert(s == wrap_u64(v + delta));
        s as u64
    }
}

/// The old end of the last record of the airport (codes compared without
/// regard to ASCII case).
pub open spec fn last_match_end(rs: Seq<RecordView>, icao: Seq<char>) -> Option<int>
    decreases rs.len(),
{
    if rs.len() == 0 {
        None
    } else if eq_ignore_ascii_case(rs.last().0, icao) {
        Some(rs.last().4)
    } else {
        last_match_end(rs.drop_last(), icao)
    }
}

/// A record of the airport gets the new state and name, and its end moves
/// by `delta`.
pub open spec fn rewritten_record(
    r: RecordView,
    icao: Seq<char>,
    flattened: bool,
    name: Seq<char>,
    delta: int,
) -> RecordView {
    if eq_ignore_ascii_case(r.0, icao) {
        (r.0, name, flattened, r.3, wrap_u64(r.4 + delta))
    } else {
        r
    }
}

/// When the block grew or shrank, every record that starts at or after the
/// airport's old end moves by `delta`.
pub open spec fn shifted_record(r: RecordView, old_end: Option<int>, delta: int) -> RecordView {
    match old_end {
        Some(e) => if delta != 0 && r.3 >= e {
            (r.0, r.1, r.2, wrap_u64(r.3 + delta), wrap_u64(r.4 + delta))
        } else {
            r
        },
        None => r,
    }
}

pub open spec fn start_before(a: RecordView, b: RecordView) -> bool {
    a.3 < b.3
}

/// The index records of a file after the block of `icao` was rewritten and
/// changed size by `delta` bytes, sorted by start.
pub open spec fn rewritten_records(
    rs: Seq<RecordView>,
    icao: Seq<char>,
    flattened: bool,
    name: Seq<char>,
    delta: int,
) -> Seq<RecordView> {
    sort_ordered(
        rs.map_values(
            |r: RecordView|
                shifted_record(
                    rewritten_record(r, icao, flattened, name, delta),
                    last_match_end(rs, icao),
                    delta,
                ),
        ),
        |a: RecordView, b: RecordView| start_before(a, b),
    )
}

/// Brings the index records of a file up to date after the block of `icao`
/// was rewritten with the new flatten state and name and changed size by
/// `block_delta` bytes.
pub fn apply_block_rewrite(
    airports: &mut Vec<CachedAirportRecord>,
    icao: &str,
    flattened: bool,
    airport_name: &str,
    block_delta: i64,
)
    ensures
        record_views(final(airports)@) == rewritten_records(
            record_views(old(airports)@),
            icao@,
            flattened,
            airport_name@,
            block_delta as int,
        ),
{
    let ghost rs = record_views(airports@);
    let ghost e = last_match_end(rs, icao@);
    let code = chars_of(icao);
    let n = airports.len();
    let mut target_end_before: Option<u64> = None;
    let mut work: Vec<CachedAirportRecord> = Vec::new();
    let mut i: usize = 0;
    assert(rs.subrange(0, 0) =~= Seq::<RecordView>::empty());
    while i < n
        invariant
            0 <= i <= n,
            n == airports.len(),
            rs == record_views(airports@),
            code@ == icao@,
            work@.len() == i,
            forall|q: int| 0 <= q < i ==> #[trigger] record_view(work@[q]) == rewritten_record(
                rs[q],
                icao@,
                flattened,
                airport_name@,
                block_delta as int,
            ),
            match target_end_before {
                Some(t) => last_match_end(rs.subrange(0, i as int), icao@) == Some(t as int),
                None => last_match_end(rs.subrange(0, i as int), icao@) is None,
            },
        decreases n - i,
    {
        let ghost sub = rs.subrange(0, i + 1);
        assert(sub.drop_last() =~= rs.subrange(0, i as int));
        assert(sub.last() == rs[i as int]);
        let a = &airports[i];
        assert(record_view(*a) == rs[i as int]);
        let rec = if eq_ignore_ascii_case_exec(&chars_of(a.icao.as_str()), &code) {
            target_end_before = Some(a.byte_end);
            CachedAirportRecord {
                icao: string_of(&chars_of(a.icao.as_str())),
                airport_name: string_of(&chars_of(airport_name)),
                flattened,
                byte_start: a.byte_start,
                byte_end: shift_offset(a.byte_end, block_delta),
            }
        } else {
            CachedAirportRecord {
                icao: string_of(&chars_of(a.icao.as_str())),
                airport_name: string_of(&chars_of(a.airport_name.as_str())),
                flattened: a.flattened,
                byte_start: a.byte_start,
                byte_end: a.byte_end,
            }
        };
        work.push(rec);
        i = i + 1;
    }
    assert(rs.subrange(0, n as int) =~= rs);
    let ghost mapped = rs.map_values(
        |r: RecordView|
            shifted_record(
                rewritten_record(r, icao@, flattened, airport_name@, block_delta as int),
                e,
                block_delta as int,
            ),
    );
    if block_delta != 0 {
        match target_end_before {
            Some(old_end) => {
                let mut j: usize = 0;
                while j < n
                    invariant
                        0 <= j <= n,
                        work@.len() == n,
                        rs.len() == n,
                        e == Some(old_end as int),
                        block_delta != 0,
                        forall|q: int| 0 <= q < j ==> #[trigger] record_view(work@[q]) == mapped[q],
                        forall|q: int| j <= q < n ==> #[trigger] record_view(work@[q]) == rewritten_record(
                            rs[q],
                            icao@,
                            flattened,
                            airport_name@,
                            block_delta as int,
                        ),
                        mapped.len() == n,
                        forall|q: int| 0 <= q < n ==> #[trigger] mapped[q] == shifted_record(
                            rewritten_record(rs[q], icao@, flattened, airport_name@, block_delta as int),
                            e,
                            block_delta as int,
                        ),
                    decreases n - j,
                {
                    assert(record_view(work@[j as int]) == rewritten_record(
                        rs[j as int],
                        icao@,
                        flattened,
                        airport_name@,
                        block_delta as int,
                    ));
                    let ghost wj = record_view(work@[j as int]);
                    if work[j].byte_start >= old_end {
                        let w = &work[j];
                        let moved = CachedAirportRecord {
                            icao: string_of(&chars_of(w.icao.as_str())),
                            airport_name: string_of(&chars_of(w.airport_name.as_str())),
                            flattened: w.flattened,
                            byte_start: shift_offset(w.byte_start, block_delta),
                            byte_end: shift_offset(w.byte_end, block_delta),
                        };
                        assert(record_view(moved) == mapped[j as int]);
                        work.set(j, moved);
                    } else {
                        assert(wj == mapped[j as int]);
                    }
                    j = j + 1;
                }
            },
            None => {},
        }
    }
    assert forall|q: int| 0 <= q < n implies #[trigger] record_views(work@)[q] == mapped[q] by {
        assert(record_views(work@)[q] == record_view(work@[q]));
    }
    assert(record_views(work@) =~= mapped);
    let ghost f = |a: RecordView, b: RecordView| start_before(a, b);
    let ghost m = mapped;
    let mut rest = work;
    let mut out: Vec<CachedAirportRecord> = Vec::new();
    assert(m.subrange(0, 0) =~= Seq::<RecordView>::empty());
    assert(record_views(rest@) =~= m.subrange(0, n as int));
    assert(record_views(out@) =~= Seq::<RecordView>::empty());
    while rest.len() > 0
        invariant
            rest.len() <= n,
            n == m.len(),
            f == (|a: RecordView, b: RecordView| start_before(a, b)),
            record_views(rest@) == m.subrange((n - rest.len()) as int, n as int),
            record_views(out@) == sort_ordered(m.subrange(0, (n - rest.len()) as int), f),
        decreases rest.len(),
    {
        let ghost k = (n - rest.len()) as int;
        let ghost rv = record_views(rest@);
        let x = rest.remove(0);
        assert(record_view(x) == rv[0]);
        assert(m[k] == rv[0]);
        assert(record_views(rest@) =~= rv.drop_first());
        assert(m.subrange(k, n as int).drop_first() =~= m.subrange(k + 1, n as int));
        assert(m.subrange(0, k + 1).drop_last() =~= m.subrange(0, k));
        assert(m.subrange(0, k + 1).last() == m[k]);
        let ghost sv = record_views(out@);
        let mut p: usize = out.len();
        while p > 0 && x.byte_start < out[p - 1].byte_start
            invariant
                0 <= p <= out.len(),
                sv == record_views(out@),
                forall|q: int| p <= q < sv.len() ==> start_before(record_view(x), #[trigger] sv[q]),
            decreases p,
        {
            assert(sv[p - 1] == record_view(out@[p - 1]));
            p = p - 1;
        }
        proof {
            if p > 0 {
                assert(sv[p - 1] == record_view(out@[p - 1]));
            }
            assert forall|q: int| p <= q < sv.len() implies f(record_view(x), #[trigger] sv[q]) by {}
            lemma_insert_ordered_at(sv, record_view(x), f, p as int);
        }
        out.insert(p, x);
        assert(record_views(out@) =~= sv.subrange(0, p as int).push(m[k]) + sv.subrange(p as int, sv.len() as int));
    }
    assert(m.subrange(0, n as int) =~= m);
    *airports = out;
}


/// Sorting what is already in order changes nothing.
pub proof fn lemma_sort_ordered_sorted<A>(s: Seq<A>, before: spec_fn(A, A) -> bool)
    requires
        forall|i: int, j: int| 0 <= i < j < s.len() ==> !before(#[trigger] s[j], #[trigger] s[i]),
    ensures
        sort_ordered(s, before) == s,
    decreases s.len(),
{
    if s.len() > 0 {
        let t = s.drop_last();
        assert forall|i: int, j: int| 0 <= i < j < t.len() implies !before(#[trigger] t[j], #[trigger] t[i]) by {
            assert(t[i] == s[i] && t[j] == s[j]);
        }
        lemma_sort_ordered_sorted(t, before);
        if t.len() > 0 {
            assert(t.last() == s[s.len() - 2]);
            assert(!before(s.last(), t.last()));
            assert(t.push(s.last()) =~= s);
        } else {
            assert(seq![s.last()] =~= s);
        }
    }
}

pub proof fn lemma_last_match_end_unique(rs: Seq<RecordView>, icao: Seq<char>, k: int)
    requires
        0 <= k < rs.len(),
        forall|i: int| 0 <= i < rs.len() ==> (eq_ignore_ascii_case((#[trigger] rs[i]).0, icao) <==> i == k),
    ensures
        last_match_end(rs, icao) == Some(rs[k].4),
    decreases rs.len(),
{
    if k < rs.len() - 1 {
        let t = rs.drop_last();
        assert forall|i: int| 0 <= i < t.len() implies (eq_ignore_ascii_case((#[trigger] t[i]).0, icao)
            <==> i == k) by {
            assert(t[i] == rs[i]);
        }
        assert(!eq_ignore_ascii_case(rs[rs.len() - 1].0, icao));
        lemma_last_match_end_unique(t, icao, k);
    } else {
        assert(eq_ignore_ascii_case(rs[k].0, icao));
    }
}

/// Rewriting the block of one airport keeps the index sound. When the
/// records were in order and did not overlap, the airport has exactly one
/// record, its block is not empty, its new length is not negative, and no
/// offset leaves the 64-bit range, then after the update the records are
/// still in order and do not overlap, the airport's record keeps its start,
/// gets the new state and name and ends `delta` bytes later, and every
/// other record keeps its airport, name, state and length.
pub proof fn law_rewrite_keeps_index_ordered(
    rs: Seq<RecordView>,
    icao: Seq<char>,
    flattened: bool,
    name: Seq<char>,
    delta: int,
    k: int,
)
    requires
        records_ordered(rs),
        0 <= k < rs.len(),
        forall|i: int| 0 <= i < rs.len() ==> (eq_ignore_ascii_case((#[trigger] rs[i]).0, icao) <==> i == k),
        rs[k].3 < rs[k].4,
        rs[k].3 <= rs[k].4 + delta,
        forall|i: int| 0 <= i < rs.len() ==> 0 <= (#[trigger] rs[i]).3,
        forall|i: int| 0 <= i < rs.len() ==> (#[trigger] rs[i]).4 + delta < 0x1_0000_0000_0000_0000int,
        forall|i: int| 0 <= i < rs.len() ==> (#[trigger] rs[i]).4 < 0x1_0000_0000_0000_0000int,
    ensures
        ({
            let out = rewritten_records(rs, icao, flattened, name, delta);
            &&& out.len() == rs.len()
            &&& records_ordered(out)
            &&& out[k] == (rs[k].0, name, flattened, rs[k].3, rs[k].4 + delta)
            &&& forall|i: int|
                0 <= i < rs.len() && i != k ==> {
                    &&& (#[trigger] out[i]).0 == rs[i].0
                    &&& out[i].1 == rs[i].1
                    &&& out[i].2 == rs[i].2
                    &&& out[i].4 - out[i].3 == rs[i].4 - rs[i].3
                }
        }),
{
    lemma_last_match_end_unique(rs, icao, k);
    let e = last_match_end(rs, icao);
    let m = rs.map_values(
        |r: RecordView| shifted_record(rewritten_record(r, icao, flattened, name, delta), e, delta),
    );
    let old_end = rs[k].4;
    assert forall|i: int| 0 <= i < rs.len() implies #[trigger] m[i] == (if i == k {
        (rs[k].0, name, flattened, rs[k].3, rs[k].4 + delta)
    } else if i < k {
        rs[i]
    } else {
        (rs[i].0, rs[i].1, rs[i].2, rs[i].3 + delta, rs[i].4 + delta)
    }) by {
        if i < k {
            assert(rs[i].4 <= rs[k].3);
        } else if i > k {
            assert(rs[k].4 <= rs[i].3);
            assert(0 <= rs[i].3 + delta);
            assert(rs[i].3 + delta <= rs[i].4 + delta);
        }
    }
    assert forall|i: int, j: int| 0 <= i < j < m.len() implies (#[trigger] m[i]).4 <= (#[trigger] m[j]).3 by {
        assert(rs[i].4 <= rs[j].3);
        if i < k && j > k {
            assert(rs[i].4 <= rs[k].3);
            assert(rs[k].4 <= rs[j].3);
        }
    }
    assert forall|i: int| 0 <= i < m.len() implies (#[trigger] m[i]).3 <= m[i].4 by {}
    let f = |a: RecordView, b: RecordView| start_before(a, b);
    assert forall|i: int, j: int| 0 <= i < j < m.len() implies !f(#[trigger] m[j], #[trigger] m[i]) by {
        assert(m[i].3 <= m[i].4);
        assert(m[i].4 <= m[j].3);
    }
    lemma_sort_ordered_sorted(m, f);
}


/// A difference of byte counts as a 64-bit signed number, wrapping.
pub open spec fn wrap_i64(x: int) -> int {
    (x + 0x8000_0000_0000_0000int) % 0x1_0000_0000_0000_0000int - 0x8000_0000_0000_0000int
}

/// What switching the flatten row inside one airport block gives: the
/// airport's name, the new block text when it differs from the old one, and
/// how many bytes longer it is than the block that was read.
#[derive(Debug, Clone)]
pub struct BlockRewrite {
    pub airport_name: String,
    pub updated_block: Option<String>,
    pub delta: i64,
}

/// Switches the flatten row of `icao` inside the text of its block, which
/// took `block_len` bytes in the file. An unchanged block is reported as
/// such, with no change in length; a block without the airport is an error.
pub fn rewrite_airport_block(block_text: &str, block_len: u64, icao: &str, enabled: bool) -> (r: Result<
    BlockRewrite,
    String,
>)
    ensures
        ({
            let ls = lines(block_text@);
            let bs = airport_blocks(ls);
            let t = rebuild(set_flatten_lines(ls, icao@, enabled), block_text@);
            match first_matching_from(bs, icao@, 0) {
                Some(k) => r matches Ok(w) && w.airport_name@ == bs[k].name && if t == block_text@ {
                    w.updated_block is None && w.delta == 0
                } else {
                    w.updated_block matches Some(u) && u@ == t && w.delta == wrap_i64(
                        vstd::utf8::encode_utf8(t).len() - block_len,
                    )
                },
                None => r matches Err(e) && e@ == "Airport "@ + icao@ + " was not found in apt.dat"@,
            }
        }),
{
    match set_flatten_state_in_text(block_text, icao, enabled) {
        Err(e) => Err(e),
        Ok((updated, name)) => {
            if eq_chars(&chars_of(updated.as_str()), &chars_of(block_text)) {
                Ok(BlockRewrite { airport_name: name, updated_block: None, delta: 0 })
            } else {
                let n = updated.as_str().as_bytes().len();
                let x: i128 = n as i128 - block_len as i128;
                let d: i64 = if x >= 0x8000_0000_0000_0000i128 {
                    let w = x - 0x1_0000_0000_0000_0000i128;
                    assert(w == wrap_i64(x as int));
                    w as i64
                } else if x < -0x8000_0000_0000_0000i128 {
                    let w = x + 0x1_0000_0000_0000_0000i128;
                    assert(w == wrap_i64(x as int));
                    w as i64
                } else {
                    assert(x == wrap_i64(x as int));
                    x as i64
                };
                Ok(BlockRewrite { airport_name: name, updated_block: Some(updated), delta: d })
            }
        },
    }
}


/// Inserting adds the element and keeps all the others.
pub proof fn lemma_insert_ordered_contains<A>(s: Seq<A>, x: A, before: spec_fn(A, A) -> bool)
    ensures
        insert_ordered(s, x, before).len() == s.len() + 1,
        forall|y: A| #[trigger] insert_ordered(s, x, before).contains(y) <==> (s.contains(y) || y == x),
    decreases s.len(),
{
    let r = insert_ordered(s, x, before);
    if s.len() == 0 {
        assert forall|y: A| #[trigger] r.contains(y) <==> (s.contains(y) || y == x) by {
            if r.contains(y) {
                assert(r[0] == x);
            }
            if y == x {
                assert(r[0] == x);
            }
        }
    } else if before(x, s.last()) {
        let t = s.drop_last();
        lemma_insert_ordered_contains(t, x, before);
        let it = insert_ordered(t, x, before);
        assert(r == it.push(s.last()));
        assert forall|y: A| #[trigger] r.contains(y) <==> (s.contains(y) || y == x) by {
            if r.contains(y) {
                let k = choose|k: int| 0 <= k < r.len() && r[k] == y;
                if k < it.len() {
                    assert(it[k] == y);
                    assert(it.contains(y));
                    if t.contains(y) {
                        let m = choose|m: int| 0 <= m < t.len() && t[m] == y;
                        assert(s[m] == y);
                    }
                } else {
                    assert(s[s.len() - 1] == y);
                }
            }
            if s.contains(y) {
                let m = choose|m: int| 0 <= m < s.len() && s[m] == y;
                if m < s.len() - 1 {
                    assert(t[m] == y);
                    assert(t.contains(y));
                    assert(it.contains(y));
                    let k = choose|k: int| 0 <= k < it.len() && it[k] == y;
                    assert(r[k] == y);
                } else {
                    assert(r[r.len() - 1] == y);
                }
            }
            if y == x {
                assert(it.contains(x));
                let k = choose|k: int| 0 <= k < it.len() && it[k] == x;
                assert(r[k] == x);
            }
        }
    } else {
        assert(r == s.push(x));
        assert forall|y: A| #[trigger] r.contains(y) <==> (s.contains(y) || y == x) by {
            if r.contains(y) {
                let k = choose|k: int| 0 <= k < r.len() && r[k] == y;
                if k < s.len() {
                    assert(s[k] == y);
                }
            }
            if s.contains(y) {
                let m = choose|m: int| 0 <= m < s.len() && s[m] == y;
                assert(r[m] == y);
            }
            if y == x {
                assert(r[s.len() as int] == x);
            }
        }
    }
}

/// Sorting keeps exactly the elements it was given.
pub proof fn lemma_sort_ordered_contains<A>(s: Seq<A>, before: spec_fn(A, A) -> bool)
    ensures
        sort_ordered(s, before).len() == s.len(),
        forall|y: A| #[trigger] sort_ordered(s, before).contains(y) <==> s.contains(y),
    decreases s.len(),
{
    if s.len() > 0 {
        let t = s.drop_last();
        lemma_sort_ordered_contains(t, before);
        let st = sort_ordered(t, before);
        lemma_insert_ordered_contains(st, s.last(), before);
        assert forall|y: A| #[trigger] sort_ordered(s, before).contains(y) <==> s.contains(y) by {
            if t.contains(y) {
                let m = choose|m: int| 0 <= m < t.len() && t[m] == y;
                assert(s[m] == y);
            }
            if s.contains(y) {
                let m = choose|m: int| 0 <= m < s.len() && s[m] == y;
                if m < s.len() - 1 {
                    assert(t[m] == y);
                }
            }
        }
    } else {
        assert forall|y: A| #[trigger] sort_ordered(s, before).contains(y) <==> s.contains(y) by {}
    }
}

} // verus!
