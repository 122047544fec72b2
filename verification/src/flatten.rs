//! Airport flattening in `apt.dat` files: the airport blocks of the text,
//! and switching the `1302 flatten 1` row of one airport on or off.

use vstd::prelude::*;
use crate::text::{
    lemma_lines_plain, lemma_split_append_plain, lemma_split_join, lemma_split_pieces_nonempty,
    lemma_split_push_line_feed, lemma_trim_drop_ws_last, no_line_feed, split_pieces, strip_cr,
    chars_of, contains, contains_exec, eq_chars, copy_chars, eq_ignore_ascii_case,
    eq_ignore_ascii_case_exec, join_all, push_all, eq_str, join, join_range, lines, lines_of, seqs, split_ws, starts_with,
    starts_with_exec, string_of, to_uppercase_chars, trim, trim_vec, uppercase, ws_tokens,
};

verus! {

/// A trimmed line that opens an airport block (land, sea or heliport).
pub open spec fn airport_header_line(t: Seq<char>) -> bool {
    starts_with(t, "1 "@) || starts_with(t, "16 "@) || starts_with(t, "17 "@)
}

/// A trimmed line that is exactly the flatten row, up to white space.
pub open spec fn flatten_row_line(t: Seq<char>) -> bool {
    ws_tokens(t) == seq!["1302"@, "flatten"@, "1"@]
}

/// The ICAO code (upper-cased) and the name read from a header line: the
/// fifth white-space token, and the rest of the tokens joined with one space
/// (the code itself when there is no rest).
pub open spec fn header_fields(t: Seq<char>) -> Option<(Seq<char>, Seq<char>)> {
    let parts = ws_tokens(t);
    if parts.len() < 5 {
        None
    } else {
        let icao = uppercase(trim(parts[4]));
        if icao.len() == 0 {
            None
        } else if parts.len() > 5 {
            Some((icao, join(parts.subrange(5, parts.len() as int), " "@)))
        } else {
            Some((icao, icao))
        }
    }
}

pub fn is_airport_header(line: &[char]) -> (r: bool)
    ensures
        r == airport_header_line(line@),
{
    let a = chars_of("1 ");
    let b = chars_of("16 ");
    let c = chars_of("17 ");
    starts_with_exec(line, &a) || starts_with_exec(line, &b) || starts_with_exec(line, &c)
}

pub fn is_flatten_line(line: &[char]) -> (r: bool)
    ensures
        r == flatten_row_line(line@),
{
    let parts = split_ws(line);
    if parts.len() != 3 {
        assert(seqs(parts@).len() != seq!["1302"@, "flatten"@, "1"@].len());
        return false;
    }
    assert(seqs(parts@)[0] == parts[0]@);
    assert(seqs(parts@)[1] == parts[1]@);
    assert(seqs(parts@)[2] == parts[2]@);
    let r = eq_str(&parts[0], "1302") && eq_str(&parts[1], "flatten") && eq_str(&parts[2], "1");
    assert(r ==> seqs(parts@) =~= seq!["1302"@, "flatten"@, "1"@]);
    r
}

pub fn parse_airport_header(line: &[char]) -> (r: Option<(String, String)>)
    ensures
        match header_fields(line@) {
            Some((icao, name)) => r matches Some((a, b)) && a@ == icao && b@ == name,
            None => r is None,
        },
{
    let parts = split_ws(line);
    if parts.len() < 5 {
        return None;
    }
    assert(seqs(parts@)[4] == parts[4]@);
    let code = trim_vec(&parts[4]);
    let icao = to_uppercase_chars(&code);
    if icao.len() == 0 {
        return None;
    }
    let name = if parts.len() > 5 {
        let sep = chars_of(" ");
        let joined = join_range(&parts, 5, parts.len(), &sep);
        assert(seqs(parts@).subrange(5, parts@.len() as int) =~= seqs(
            parts@.subrange(5, parts@.len() as int),
        ));
        joined
    } else {
        copy_chars(&icao)
    };
    Some((string_of(&icao), string_of(&name)))
}

/// What is known of an airport block while its lines are read.
pub struct AptBlockView {
    pub icao: Seq<char>,
    pub name: Seq<char>,
    pub flattened: bool,
    pub start: int,
    pub end: int,
}

/// An airport block of `apt.dat`: its lines are `start..end`, the first of
/// them its header.
#[derive(Debug, Clone)]
pub struct AptAirportBlock {
    pub icao: String,
    pub name: String,
    pub flattened: bool,
    pub start: usize,
    pub end: usize,
}

impl View for AptAirportBlock {
    type V = AptBlockView;

    open spec fn view(&self) -> AptBlockView {
        AptBlockView {
            icao: self.icao@,
            name: self.name@,
            flattened: self.flattened,
            start: self.start as int,
            end: self.end as int,
        }
    }
}

pub open spec fn block_views(v: Seq<AptAirportBlock>) -> Seq<AptBlockView> {
    v.map_values(|b: AptAirportBlock| b@)
}

pub open spec fn cur_view(c: Option<AptAirportBlock>) -> Option<AptBlockView> {
    match c {
        Some(b) => Some(b@),
        None => None,
    }
}

/// The block list so far and the block being read.
pub type ScanState = (Seq<AptBlockView>, Option<AptBlockView>);

/// Closes the block being read at line `index`.
pub open spec fn close_current(s: ScanState, index: int) -> Seq<AptBlockView> {
    match s.1 {
        Some(b) => s.0.push(
            AptBlockView { icao: b.icao, name: b.name, flattened: b.flattened, start: b.start, end: index },
        ),
        None => s.0,
    }
}

/// Reading line `index`: a header closes the open block and opens a new one
/// when it can be read; a flatten row marks the open block.
pub open spec fn scan_step(s: ScanState, line: Seq<char>, index: int) -> ScanState {
    let t = trim(line);
    if airport_header_line(t) {
        let cur = match header_fields(t) {
            Some(f) => Some(
                AptBlockView { icao: f.0, name: f.1, flattened: false, start: index, end: index },
            ),
            None => None,
        };
        (close_current(s, index), cur)
    } else {
        match s.1 {
            Some(b) => if flatten_row_line(t) {
                (
                    s.0,
                    Some(
                        AptBlockView {
                            icao: b.icao,
                            name: b.name,
                            flattened: true,
                            start: b.start,
                            end: b.end,
                        },
                    ),
                )
            } else {
                s
            },
            None => s,
        }
    }
}

pub open spec fn scan_lines(lines: Seq<Seq<char>>) -> ScanState
    decreases lines.len(),
{
    if lines.len() == 0 {
        (Seq::empty(), None)
    } else {
        scan_step(scan_lines(lines.drop_last()), lines.last(), lines.len() - 1)
    }
}

/// The airport blocks of `lines`, in order.
pub open spec fn airport_blocks(lines: Seq<Seq<char>>) -> Seq<AptBlockView> {
    close_current(scan_lines(lines), lines.len() as int)
}

fn close_block(blocks: &mut Vec<AptAirportBlock>, current: Option<AptAirportBlock>, index: usize)
    ensures
        block_views(final(blocks)@) == close_current(
            (block_views(old(blocks)@), cur_view(current)),
            index as int,
        ),
{
    match current {
        Some(b) => {
            let ghost before = block_views(blocks@);
            let closed = AptAirportBlock {
                icao: b.icao,
                name: b.name,
                flattened: b.flattened,
                start: b.start,
                end: index,
            };
            blocks.push(closed);
            assert(block_views(blocks@) =~= before.push(closed@));
        },
        None => {},
    }
}

/// The airport blocks of the lines of an `apt.dat` text.
pub fn parse_airport_blocks(lines: &[Vec<char>]) -> (r: Vec<AptAirportBlock>)
    ensures
        block_views(r@) == airport_blocks(seqs(lines@)),
{
    let ghost all = seqs(lines@);
    let mut blocks: Vec<AptAirportBlock> = Vec::new();
    let mut current: Option<AptAirportBlock> = None;
    let mut index: usize = 0;
    while index < lines.len()
        invariant
            0 <= index <= lines.len(),
            all == seqs(lines@),
            (block_views(blocks@), cur_view(current)) == scan_lines(all.subrange(0, index as int)),
        decreases lines.len() - index,
    {
        let ghost prefix = all.subrange(0, index as int);
        assert(all.subrange(0, index + 1).drop_last() =~= prefix);
        assert(all.subrange(0, index + 1).last() == lines@[index as int]@);
        let trimmed = trim_vec(&lines[index]);
        if is_airport_header(&trimmed) {
            let taken = current;
            close_block(&mut blocks, taken, index);
            current = match parse_airport_header(&trimmed) {
                Some((icao, name)) => Some(
                    AptAirportBlock { icao, name, flattened: false, start: index, end: index },
                ),
                None => None,
            };
        } else {
            let flat = is_flatten_line(&trimmed);
            current = match current {
                Some(b) => if flat {
                    Some(
                        AptAirportBlock {
                            icao: b.icao,
                            name: b.name,
                            flattened: true,
                            start: b.start,
                            end: b.end,
                        },
                    )
                } else {
                    Some(b)
                },
                None => None,
            };
        }
        index = index + 1;
    }
    assert(all.subrange(0, lines@.len() as int) =~= all);
    close_block(&mut blocks, current, lines.len());
    blocks
}

/// The airport blocks of an `apt.dat` text.
pub fn summarize_apt_text(text: &str) -> (r: Vec<AptAirportBlock>)
    ensures
        block_views(r@) == airport_blocks(lines(text@)),
{
    let chars = chars_of(text);
    let ls = lines_of(&chars);
    parse_airport_blocks(&ls)
}

/// The lines of a block body without its flatten rows.
pub open spec fn without_flatten_rows(body: Seq<Seq<char>>) -> Seq<Seq<char>>
    decreases body.len(),
{
    if body.len() == 0 {
        Seq::empty()
    } else {
        let r = without_flatten_rows(body.drop_last());
        if flatten_row_line(trim(body.last())) {
            r
        } else {
            r.push(body.last())
        }
    }
}

/// One past the last line whose trimmed text starts with `1302 `, or 0
/// when there is none: where a flatten row goes.
pub open spec fn after_last_meta_row(body: Seq<Seq<char>>) -> int
    decreases body.len(),
{
    if body.len() == 0 {
        0
    } else if starts_with(trim(body.last()), "1302 "@) {
        body.len() as int
    } else {
        after_last_meta_row(body.drop_last())
    }
}

pub proof fn lemma_after_last_meta_row(body: Seq<Seq<char>>)
    ensures
        0 <= after_last_meta_row(body) <= body.len(),
    decreases body.len(),
{
    if body.len() > 0 {
        lemma_after_last_meta_row(body.drop_last());
    }
}

/// A block with its flatten rows removed and, when `enabled`, one flatten
/// row put back after the last `1302` row (or right after the header).
pub open spec fn upsert_flatten(block: Seq<Seq<char>>, enabled: bool) -> Seq<Seq<char>> {
    if block.len() == 0 {
        Seq::empty()
    } else {
        let body = without_flatten_rows(block.drop_first());
        if enabled {
            let at = after_last_meta_row(body);
            seq![block[0]] + body.subrange(0, at) + seq!["1302 flatten 1"@] + body.subrange(
                at,
                body.len() as int,
            )
        } else {
            seq![block[0]] + body
        }
    }
}

/// Sets the flatten row of one block (its lines, header first).
pub fn upsert_flatten_in_block(block: &[Vec<char>], enabled: bool) -> (r: Vec<Vec<char>>)
    ensures
        seqs(r@) == upsert_flatten(seqs(block@), enabled),
{
    let ghost all = seqs(block@);
    let mut updated: Vec<Vec<char>> = Vec::new();
    if block.len() == 0 {
        assert(seqs(updated@) =~= Seq::<Seq<char>>::empty());
        return updated;
    }
    let mut body: Vec<Vec<char>> = Vec::new();
    let mut i: usize = 1;
    while i < block.len()
        invariant
            1 <= i <= block.len(),
            all == seqs(block@),
            seqs(body@) == without_flatten_rows(all.subrange(1, i as int)),
        decreases block.len() - i,
    {
        assert(all.subrange(1, i + 1).drop_last() =~= all.subrange(1, i as int));
        assert(all.subrange(1, i + 1).last() == block@[i as int]@);
        let trimmed = trim_vec(&block[i]);
        if !is_flatten_line(&trimmed) {
            let ghost before = seqs(body@);
            body.push(copy_chars(&block[i]));
            assert(seqs(body@) =~= before.push(block@[i as int]@));
        }
        i = i + 1;
    }
    assert(all.subrange(1, block@.len() as int) =~= all.drop_first());
    let ghost b = seqs(body@);
    updated.push(copy_chars(&block[0]));
    assert(seqs(updated@) =~= seq![all[0]]);
    if enabled {
        let mut at: usize = 0;
        let mut k: usize = 0;
        let meta = chars_of("1302 ");
        while k < body.len()
            invariant
                0 <= k <= body.len(),
                b == seqs(body@),
                meta@ == "1302 "@,
                at as int == after_last_meta_row(b.subrange(0, k as int)),
            decreases body.len() - k,
        {
            assert(b.subrange(0, k + 1).drop_last() =~= b.subrange(0, k as int));
            assert(b.subrange(0, k + 1).last() == body@[k as int]@);
            let t = trim_vec(&body[k]);
            if starts_with_exec(&t, &meta) {
                at = k + 1;
            }
            k = k + 1;
        }
        assert(b.subrange(0, body@.len() as int) =~= b);
        proof {
            lemma_after_last_meta_row(b);
        }
        let mut j: usize = 0;
        while j < body.len()
            invariant
                0 <= j <= body.len(),
                b == seqs(body@),
                0 <= at <= body.len(),
                at as int == after_last_meta_row(b),
                seqs(updated@) == seq![all[0]] + (if j <= at {
                    b.subrange(0, j as int)
                } else {
                    b.subrange(0, at as int) + seq!["1302 flatten 1"@] + b.subrange(
                        at as int,
                        j as int,
                    )
                }),
            decreases body.len() - j,
        {
            let ghost before = seqs(updated@);
            if j == at {
                updated.push(chars_of("1302 flatten 1"));
                assert(seqs(updated@) =~= before.push("1302 flatten 1"@));
            }
            let ghost mid = seqs(updated@);
            updated.push(copy_chars(&body[j]));
            assert(seqs(updated@) =~= mid.push(b[j as int]));
            j = j + 1;
            assert(seqs(updated@) =~= seq![all[0]] + (if j <= at {
                b.subrange(0, j as int)
            } else {
                b.subrange(0, at as int) + seq!["1302 flatten 1"@] + b.subrange(
                    at as int,
                    j as int,
                )
            }));
        }
        if at == body.len() {
            let ghost before = seqs(updated@);
            updated.push(chars_of("1302 flatten 1"));
            assert(seqs(updated@) =~= before.push("1302 flatten 1"@));
        }
        assert(seqs(updated@) =~= upsert_flatten(all, enabled));
    } else {
        let mut j: usize = 0;
        while j < body.len()
            invariant
                0 <= j <= body.len(),
                b == seqs(body@),
                seqs(updated@) == seq![all[0]] + b.subrange(0, j as int),
            decreases body.len() - j,
        {
            let ghost before = seqs(updated@);
            updated.push(copy_chars(&body[j]));
            assert(seqs(updated@) =~= before.push(b[j as int]));
            j = j + 1;
            assert(seqs(updated@) =~= seq![all[0]] + b.subrange(0, j as int));
        }
        assert(b.subrange(0, body@.len() as int) =~= b);
    }
    updated
}

/// While the lines are rewritten: the lines written so far, and the block
/// being read (its lines, and whether its code is the airport's).
pub type FlattenState = (Seq<Seq<char>>, Option<(Seq<Seq<char>>, bool)>);

/// Writes out the block being read, rewritten when it is the airport's.
pub open spec fn flush_block(st: FlattenState, enabled: bool) -> Seq<Seq<char>> {
    match st.1 {
        Some(open) => st.0 + (if open.1 {
            upsert_flatten(open.0, enabled)
        } else {
            open.0
        }),
        None => st.0,
    }
}

/// One line of the rewrite: a header ends the block being read and opens a
/// new one when it can be read; other lines go to the open block, or out.
pub open spec fn flatten_step(st: FlattenState, line: Seq<char>, icao: Seq<char>, enabled: bool) -> FlattenState {
    let t = trim(line);
    if airport_header_line(t) {
        let out = flush_block(st, enabled);
        match header_fields(t) {
            Some(f) => (out, Some((seq![line], eq_ignore_ascii_case(f.0, icao)))),
            None => (out.push(line), None),
        }
    } else {
        match st.1 {
            Some(open) => (st.0, Some((open.0.push(line), open.1))),
            None => (st.0.push(line), None),
        }
    }
}

pub open spec fn flatten_scan(lines: Seq<Seq<char>>, icao: Seq<char>, enabled: bool) -> FlattenState
    decreases lines.len(),
{
    if lines.len() == 0 {
        (Seq::empty(), None)
    } else {
        flatten_step(flatten_scan(lines.drop_last(), icao, enabled), lines.last(), icao, enabled)
    }
}

/// All lines, with every block of the airport (its code matched without
/// regard to ASCII case) rewritten by `upsert_flatten`, the rest unchanged.
pub open spec fn set_flatten_lines(lines: Seq<Seq<char>>, icao: Seq<char>, enabled: bool) -> Seq<
    Seq<char>,
> {
    flush_block(flatten_scan(lines, icao, enabled), enabled)
}

fn flush_open_block(out: &mut Vec<Vec<char>>, block: &Vec<Vec<char>>, open: bool, matching: bool, enabled: bool)
    ensures
        seqs(final(out)@) == flush_block(
            (seqs(old(out)@), if open { Some((seqs(block@), matching)) } else { None }),
            enabled,
        ),
{
    if open {
        if matching {
            let replaced = upsert_flatten_in_block(block, enabled);
            append_lines(out, &replaced, 0, replaced.len());
            assert(seqs(replaced@).subrange(0, replaced@.len() as int) =~= seqs(replaced@));
        } else {
            append_lines(out, block, 0, block.len());
            assert(seqs(block@).subrange(0, block@.len() as int) =~= seqs(block@));
        }
    }
}

/// Switches the flatten row of every block whose code matches `icao`.
pub fn set_flatten_in_lines(lines: &[Vec<char>], icao: &[char], enabled: bool) -> (r: Vec<Vec<char>>)
    ensures
        seqs(r@) == set_flatten_lines(seqs(lines@), icao@, enabled),
{
    let ghost ls = seqs(lines@);
    let mut out: Vec<Vec<char>> = Vec::new();
    let mut block: Vec<Vec<char>> = Vec::new();
    let mut open = false;
    let mut matching = false;
    let mut i: usize = 0;
    while i < lines.len()
        invariant
            ls == seqs(lines@),
            0 <= i <= lines.len(),
            (seqs(out@), if open { Some((seqs(block@), matching)) } else { None })
                == flatten_scan(ls.subrange(0, i as int), icao@, enabled),
        decreases lines.len() - i,
    {
        assert(ls.subrange(0, i + 1).drop_last() =~= ls.subrange(0, i as int));
        assert(ls.subrange(0, i + 1).last() == lines@[i as int]@);
        let trimmed = trim_vec(&lines[i]);
        if is_airport_header(&trimmed) {
            flush_open_block(&mut out, &block, open, matching, enabled);
            block = Vec::new();
            match parse_airport_header(&trimmed) {
                Some((code, _name)) => {
                    let c = chars_of(code.as_str());
                    matching = eq_ignore_ascii_case_exec(&c, icao);
                    block.push(copy_chars(&lines[i]));
                    assert(seqs(block@) =~= seq![lines@[i as int]@]);
                    open = true;
                },
                None => {
                    let ghost before = seqs(out@);
                    out.push(copy_chars(&lines[i]));
                    assert(seqs(out@) =~= before.push(lines@[i as int]@));
                    open = false;
                },
            }
        } else if open {
            let ghost before = seqs(block@);
            block.push(copy_chars(&lines[i]));
            assert(seqs(block@) =~= before.push(lines@[i as int]@));
        } else {
            let ghost before = seqs(out@);
            out.push(copy_chars(&lines[i]));
            assert(seqs(out@) =~= before.push(lines@[i as int]@));
        }
        i = i + 1;
    }
    assert(ls.subrange(0, lines@.len() as int) =~= ls);
    flush_open_block(&mut out, &block, open, matching, enabled);
    out
}

/// The first block of the airport, from block `k` on.
pub open spec fn first_matching_from(bs: Seq<AptBlockView>, icao: Seq<char>, k: int) -> Option<int>
    decreases bs.len() - k,
{
    if k < 0 || k >= bs.len() {
        None
    } else if eq_ignore_ascii_case(bs[k].icao, icao) {
        Some(k)
    } else {
        first_matching_from(bs, icao, k + 1)
    }
}

pub proof fn lemma_first_matching(bs: Seq<AptBlockView>, icao: Seq<char>, k: int)
    requires
        0 <= k,
    ensures
        first_matching_from(bs, icao, k) matches Some(i) ==> k <= i < bs.len()
            && eq_ignore_ascii_case(bs[i].icao, icao) && forall|j: int|
            k <= j < i ==> !eq_ignore_ascii_case(#[trigger] bs[j].icao, icao),
        first_matching_from(bs, icao, k) is None ==> forall|j: int|
            k <= j < bs.len() ==> !eq_ignore_ascii_case(#[trigger] bs[j].icao, icao),
    decreases bs.len() - k,
{
    if k < bs.len() && !eq_ignore_ascii_case(bs[k].icao, icao) {
        lemma_first_matching(bs, icao, k + 1);
    }
}

/// Appends `src[from..to]` to `out`.
fn append_lines(out: &mut Vec<Vec<char>>, src: &[Vec<char>], from: usize, to: usize)
    requires
        from <= to <= src@.len(),
    ensures
        seqs(final(out)@) == seqs(old(out)@) + seqs(src@).subrange(from as int, to as int),
{
    let mut i = from;
    while i < to
        invariant
            from <= i <= to <= src@.len(),
            seqs(out@) == seqs(old(out)@) + seqs(src@).subrange(from as int, i as int),
        decreases to - i,
    {
        let ghost before = seqs(out@);
        out.push(copy_chars(&src[i]));
        assert(seqs(out@) =~= before.push(src@[i as int]@));
        i = i + 1;
        assert(seqs(out@) =~= seqs(old(out)@) + seqs(src@).subrange(from as int, i as int));
    }
}

/// The line ending of a text: `\r\n` when it holds one, else `\n`.
pub open spec fn line_ending(original: Seq<char>) -> Seq<char> {
    if contains(original, "\r\n"@) {
        "\r\n"@
    } else {
        "\n"@
    }
}

/// Lines joined with the line ending of `original`, with a final line
/// ending when `original` has one.
pub open spec fn rebuild(lines: Seq<Seq<char>>, original: Seq<char>) -> Seq<char> {
    join(lines, line_ending(original)) + (if original.len() > 0 && original.last() == '\n' {
        line_ending(original)
    } else {
        Seq::empty()
    })
}

pub fn rebuild_text(lines: &Vec<Vec<char>>, original: &[char]) -> (r: Vec<char>)
    ensures
        r@ == rebuild(seqs(lines@), original@),
{
    let crlf = chars_of("\r\n");
    let ending = if contains_exec(original, &crlf) {
        crlf
    } else {
        chars_of("\n")
    };
    let mut rebuilt = join_all(lines, &ending);
    if original.len() > 0 && original[original.len() - 1] == '\n' {
        push_all(&mut rebuilt, &ending);
    }
    rebuilt
}

/// The index of the first block whose code matches `icao`.
pub fn first_matching_block(blocks: &[AptAirportBlock], icao: &[char]) -> (r: Option<usize>)
    ensures
        match first_matching_from(block_views(blocks@), icao@, 0) {
            Some(k) => r == Some(k as usize) && 0 <= k < blocks@.len(),
            None => r is None,
        },
{
    let ghost bs = block_views(blocks@);
    proof {
        lemma_first_matching(bs, icao@, 0);
    }
    let mut k: usize = 0;
    while k < blocks.len()
        invariant
            bs == block_views(blocks@),
            0 <= k <= blocks.len(),
            first_matching_from(bs, icao@, 0) == first_matching_from(bs, icao@, k as int),
        decreases blocks.len() - k,
    {
        let c = chars_of(blocks[k].icao.as_str());
        if eq_ignore_ascii_case_exec(&c, icao) {
            return Some(k);
        }
        k = k + 1;
    }
    None
}

/// Switches the flatten row of an airport in an `apt.dat` text. Gives the
/// new text and the name of the airport's first block, or an error when no
/// block has the code.
pub fn set_flatten_state_in_text(original: &str, icao: &str, enabled: bool) -> (r: Result<
    (String, String),
    String,
>)
    ensures
        ({
            let ls = lines(original@);
            let bs = airport_blocks(ls);
            match first_matching_from(bs, icao@, 0) {
                Some(k) => r matches Ok((text, name)) && name@ == bs[k].name && text@ == rebuild(
                    set_flatten_lines(ls, icao@, enabled),
                    original@,
                ),
                None => r matches Err(e) && e@ == "Airport "@ + icao@ + " was not found in apt.dat"@,
            }
        }),
{
    let text = chars_of(original);
    let ls = lines_of(&text);
    let blocks = parse_airport_blocks(&ls);
    let code = chars_of(icao);
    let found = first_matching_block(&blocks, &code);
    match found {
        None => {
            let mut msg = chars_of("Airport ");
            push_all(&mut msg, &code);
            let tail = chars_of(" was not found in apt.dat");
            push_all(&mut msg, &tail);
            Err(string_of(&msg))
        },
        Some(first) => {
            let name = string_of(&chars_of(blocks[first].name.as_str()));
            let updated = set_flatten_in_lines(&ls, &code, enabled);
            let rebuilt = rebuild_text(&updated, &text);
            Ok((string_of(&rebuilt), name))
        },
    }
}

/// Code, name and flattened flag of a block.
pub open spec fn block_summary(b: AptBlockView) -> (Seq<char>, Seq<char>, bool) {
    (b.icao, b.name, b.flattened)
}

pub open spec fn summaries(bs: Seq<AptBlockView>) -> Seq<(Seq<char>, Seq<char>, bool)> {
    bs.map_values(|b: AptBlockView| block_summary(b))
}

/// A block summary after switching the airport `icao` to `enabled`.
pub open spec fn switched(x: (Seq<char>, Seq<char>, bool), icao: Seq<char>, enabled: bool) -> (
    Seq<char>,
    Seq<char>,
    bool,
) {
    if eq_ignore_ascii_case(x.0, icao) {
        (x.0, x.1, enabled)
    } else {
        x
    }
}

pub open spec fn switched_all(
    xs: Seq<(Seq<char>, Seq<char>, bool)>,
    icao: Seq<char>,
    enabled: bool,
) -> Seq<(Seq<char>, Seq<char>, bool)> {
    xs.map_values(|x: (Seq<char>, Seq<char>, bool)| switched(x, icao, enabled))
}

/// Some line of `body` is a flatten row.
pub open spec fn has_flatten_row(body: Seq<Seq<char>>) -> bool {
    exists|j: int| 0 <= j < body.len() && flatten_row_line(trim(#[trigger] body[j]))
}

/// No line of `body` opens an airport block.
pub open spec fn no_header_rows(body: Seq<Seq<char>>) -> bool {
    forall|j: int| 0 <= j < body.len() ==> !airport_header_line(trim(#[trigger] body[j]))
}

pub proof fn lemma_flatten_row_text()
    ensures
        trim("1302 flatten 1"@) == "1302 flatten 1"@,
        !airport_header_line("1302 flatten 1"@),
        flatten_row_line("1302 flatten 1"@),
{
    reveal_strlit("1302 flatten 1");
    reveal_strlit("1 ");
    reveal_strlit("16 ");
    reveal_strlit("17 ");
    reveal_strlit("1302");
    reveal_strlit("flatten");
    reveal_strlit("1");
    let row = "1302 flatten 1"@;
    assert(row.len() == 14);
    assert(!starts_with(row, "1 "@)) by {
        assert(row.subrange(0, 2)[1] != "1 "@[1]);
    }
    assert(!starts_with(row, "16 "@)) by {
        assert(row.subrange(0, 3)[1] != "16 "@[1]);
    }
    assert(!starts_with(row, "17 "@)) by {
        assert(row.subrange(0, 3)[1] != "17 "@[1]);
    }
    assert(trim(row) == row);
    assert(row =~= seq!['1', '3', '0', '2', ' ', 'f', 'l', 'a', 't', 't', 'e', 'n', ' ', '1']);
    assert(ws_tokens(Seq::<char>::empty()) =~= Seq::<Seq<char>>::empty());
    let p1 = seq!['1'];
    assert(p1.drop_last() =~= Seq::<char>::empty());
    assert(ws_tokens(p1) =~~= seq![seq!['1']]);
    let p2 = seq!['1', '3'];
    assert(p2.drop_last() =~= p1);
    assert(ws_tokens(p2) =~~= seq![seq!['1', '3']]);
    let p3 = seq!['1', '3', '0'];
    assert(p3.drop_last() =~= p2);
    assert(ws_tokens(p3) =~~= seq![seq!['1', '3', '0']]);
    let p4 = seq!['1', '3', '0', '2'];
    assert(p4.drop_last() =~= p3);
    assert(ws_tokens(p4) =~~= seq![seq!['1', '3', '0', '2']]);
    let p5 = seq!['1', '3', '0', '2', ' '];
    assert(p5.drop_last() =~= p4);
    assert(ws_tokens(p5) =~~= seq![seq!['1', '3', '0', '2']]);
    let p6 = seq!['1', '3', '0', '2', ' ', 'f'];
    assert(p6.drop_last() =~= p5);
    assert(ws_tokens(p6) =~~= seq![seq!['1', '3', '0', '2'], seq!['f']]);
    let p7 = seq!['1', '3', '0', '2', ' ', 'f', 'l'];
    assert(p7.drop_last() =~= p6);
    assert(ws_tokens(p7) =~~= seq![seq!['1', '3', '0', '2'], seq!['f', 'l']]);
    let p8 = seq!['1', '3', '0', '2', ' ', 'f', 'l', 'a'];
    assert(p8.drop_last() =~= p7);
    assert(ws_tokens(p8) =~~= seq![seq!['1', '3', '0', '2'], seq!['f', 'l', 'a']]);
    let p9 = seq!['1', '3', '0', '2', ' ', 'f', 'l', 'a', 't'];
    assert(p9.drop_last() =~= p8);
    assert(ws_tokens(p9) =~~= seq![seq!['1', '3', '0', '2'], seq!['f', 'l', 'a', 't']]);
    let p10 = seq!['1', '3', '0', '2', ' ', 'f', 'l', 'a', 't', 't'];
    assert(p10.drop_last() =~= p9);
    assert(ws_tokens(p10) =~~= seq![seq!['1', '3', '0', '2'], seq!['f', 'l', 'a', 't', 't']]);
    let p11 = seq!['1', '3', '0', '2', ' ', 'f', 'l', 'a', 't', 't', 'e'];
    assert(p11.drop_last() =~= p10);
    assert(ws_tokens(p11) =~~= seq![seq!['1', '3', '0', '2'], seq!['f', 'l', 'a', 't', 't', 'e']]);
    let p12 = seq!['1', '3', '0', '2', ' ', 'f', 'l', 'a', 't', 't', 'e', 'n'];
    assert(p12.drop_last() =~= p11);
    assert(ws_tokens(p12) =~~= seq![seq!['1', '3', '0', '2'], seq!['f', 'l', 'a', 't', 't', 'e', 'n']]);
    let p13 = seq!['1', '3', '0', '2', ' ', 'f', 'l', 'a', 't', 't', 'e', 'n', ' '];
    assert(p13.drop_last() =~= p12);
    assert(ws_tokens(p13) =~~= seq![seq!['1', '3', '0', '2'], seq!['f', 'l', 'a', 't', 't', 'e', 'n']]);
    let p14 = seq!['1', '3', '0', '2', ' ', 'f', 'l', 'a', 't', 't', 'e', 'n', ' ', '1'];
    assert(p14.drop_last() =~= p13);
    assert(ws_tokens(p14) =~~= seq![seq!['1', '3', '0', '2'], seq!['f', 'l', 'a', 't', 't', 'e', 'n'], seq!['1']]);
    assert(row =~= p14);
    assert("1302"@ =~= seq!['1', '3', '0', '2']);
    assert("flatten"@ =~= seq!['f', 'l', 'a', 't', 't', 'e', 'n']);
    assert("1"@ =~= seq!['1']);
    assert(ws_tokens(row) =~= seq!["1302"@, "flatten"@, "1"@]);
}

proof fn lemma_without_flatten_rows(body: Seq<Seq<char>>)
    requires
        no_header_rows(body),
    ensures
        no_header_rows(without_flatten_rows(body)),
        !has_flatten_row(without_flatten_rows(body)),
    decreases body.len(),
{
    if body.len() > 0 {
        let d = body.drop_last();
        assert(no_header_rows(d)) by {
            assert forall|j: int| 0 <= j < d.len() implies !airport_header_line(
                trim(#[trigger] d[j]),
            ) by {
                assert(d[j] == body[j]);
            }
        }
        lemma_without_flatten_rows(d);
        let r = without_flatten_rows(d);
        if !flatten_row_line(trim(body.last())) {
            let r2 = r.push(body.last());
            assert(no_header_rows(r2)) by {
                assert forall|j: int| 0 <= j < r2.len() implies !airport_header_line(
                    trim(#[trigger] r2[j]),
                ) by {
                    if j < r.len() {
                        assert(r2[j] == r[j]);
                    } else {
                        assert(body[body.len() - 1] == body.last());
                    }
                }
            }
            assert(!has_flatten_row(r2)) by {
                if has_flatten_row(r2) {
                    let j = choose|j: int| 0 <= j < r2.len() && flatten_row_line(trim(#[trigger] r2[j]));
                    if j < r.len() {
                        assert(r2[j] == r[j]);
                    }
                }
            }
        }
    }
}

pub proof fn lemma_upsert_shape(blk: Seq<Seq<char>>, enabled: bool)
    requires
        blk.len() >= 1,
        no_header_rows(blk.drop_first()),
    ensures
        upsert_flatten(blk, enabled).len() >= 1,
        upsert_flatten(blk, enabled)[0] == blk[0],
        no_header_rows(upsert_flatten(blk, enabled).drop_first()),
        has_flatten_row(upsert_flatten(blk, enabled).drop_first()) == enabled,
{
    let body = without_flatten_rows(blk.drop_first());
    lemma_without_flatten_rows(blk.drop_first());
    let u = upsert_flatten(blk, enabled);
    if enabled {
        lemma_flatten_row_text();
        lemma_after_last_meta_row(body);
        let at = after_last_meta_row(body);
        let row = "1302 flatten 1"@;
        let tail = body.subrange(0, at) + seq![row] + body.subrange(at, body.len() as int);
        assert(u =~= seq![blk[0]] + tail);
        assert(u.drop_first() =~= tail);
        assert(tail[at] == row);
        assert forall|j: int| 0 <= j < tail.len() implies !airport_header_line(
            trim(#[trigger] tail[j]),
        ) by {
            if j < at {
                assert(tail[j] == body[j]);
            } else if j > at {
                assert(tail[j] == body[j - 1]);
            }
        }
        assert(has_flatten_row(tail));
    } else {
        assert(u.drop_first() =~= body);
    }
}

/// Scanning a block after other lines: the summary gains the block, with
/// its code and name from the header and flattened iff a body line is a
/// flatten row.
proof fn lemma_scan_block(o: Seq<Seq<char>>, x: Seq<Seq<char>>)
    requires
        x.len() >= 1,
        airport_header_line(trim(x[0])),
        header_fields(trim(x[0])) is Some,
        no_header_rows(x.drop_first()),
    ensures
        scan_lines(o + x).1 is Some,
        summaries(close_current(scan_lines(o + x), 0)) == summaries(
            close_current(scan_lines(o), 0),
        ).push(
            (
                header_fields(trim(x[0])).unwrap().0,
                header_fields(trim(x[0])).unwrap().1,
                has_flatten_row(x.drop_first()),
            ),
        ),
    decreases x.len(),
{
    let f = header_fields(trim(x[0])).unwrap();
    if x.len() == 1 {
        assert((o + x).drop_last() =~= o);
        assert((o + x).last() == x[0]);
        assert(!has_flatten_row(x.drop_first()));
        let s = scan_lines(o);
        assert(summaries(close_current(scan_lines(o + x), 0)) =~= summaries(
            close_current(s, 0),
        ).push((f.0, f.1, false)));
    } else {
        let xd = x.drop_last();
        assert(xd[0] == x[0]);
        assert(no_header_rows(xd.drop_first())) by {
            assert forall|j: int| 0 <= j < xd.drop_first().len() implies !airport_header_line(
                trim(#[trigger] xd.drop_first()[j]),
            ) by {
                assert(xd.drop_first()[j] == x.drop_first()[j]);
            }
        }
        lemma_scan_block(o, xd);
        assert((o + x).drop_last() =~= o + xd);
        assert((o + x).last() == x.last());
        let l = x.last();
        assert(x.drop_first()[x.len() - 2] == l);
        assert(!airport_header_line(trim(l)));
        let before = scan_lines(o + xd);
        let hb = has_flatten_row(xd.drop_first());
        let ha = has_flatten_row(x.drop_first());
        assert(ha == (hb || flatten_row_line(trim(l)))) by {
            if hb {
                let j = choose|j: int| 0 <= j < xd.drop_first().len() && flatten_row_line(
                    trim(#[trigger] xd.drop_first()[j]),
                );
                assert(x.drop_first()[j] == xd.drop_first()[j]);
            }
            if ha {
                let j = choose|j: int| 0 <= j < x.drop_first().len() && flatten_row_line(
                    trim(#[trigger] x.drop_first()[j]),
                );
                if j < x.len() - 2 {
                    assert(x.drop_first()[j] == xd.drop_first()[j]);
                }
            }
        }
        let prev = summaries(close_current(scan_lines(o), 0));
        let c = before.1.unwrap();
        assert(summaries(close_current(before, 0)) =~= summaries(before.0).push(block_summary(c)));
        assert(summaries(close_current(before, 0)) == prev.push((f.0, f.1, hb)));
        assert(summaries(before.0) =~= summaries(close_current(before, 0)).drop_last());
        assert(prev.push((f.0, f.1, hb)).drop_last() =~= prev);
        assert(summaries(close_current(before, 0)).last() == block_summary(c));
        assert(block_summary(c) == (f.0, f.1, hb));
        let after = scan_lines(o + x);
        assert(after == scan_step(before, l, (o + x).len() - 1));
        assert(summaries(close_current(after, 0)) =~= summaries(before.0).push(
            (c.icao, c.name, c.flattened || flatten_row_line(trim(l))),
        ));
        assert(summaries(close_current(scan_lines(o + x), 0)) =~= prev.push((f.0, f.1, ha)));
    }
}

proof fn lemma_flatten_scan(lines: Seq<Seq<char>>, icao: Seq<char>, enabled: bool)
    ensures
        ({
            let st = flatten_scan(lines, icao, enabled);
            let sc = scan_lines(lines);
            &&& st.1 is Some <==> sc.1 is Some
            &&& st.1 matches Some(open) ==> {
                &&& open.0.len() >= 1
                &&& airport_header_line(trim(open.0[0]))
                &&& header_fields(trim(open.0[0])) == Some((sc.1->0.icao, sc.1->0.name))
                &&& no_header_rows(open.0.drop_first())
                &&& sc.1->0.flattened == has_flatten_row(open.0.drop_first())
                &&& open.1 == eq_ignore_ascii_case(sc.1->0.icao, icao)
            }
            &&& st.1 is None ==> scan_lines(st.0).1 is None
            &&& summaries(close_current(scan_lines(st.0), 0)) == switched_all(
                summaries(sc.0),
                icao,
                enabled,
            )
        }),
    decreases lines.len(),
{
    if lines.len() == 0 {
        assert(summaries(close_current(scan_lines(Seq::<Seq<char>>::empty()), 0)) =~= switched_all(
            summaries(Seq::<AptBlockView>::empty()),
            icao,
            enabled,
        ));
    } else {
        let prev = lines.drop_last();
        lemma_flatten_scan(prev, icao, enabled);
        let st = flatten_scan(prev, icao, enabled);
        let sc = scan_lines(prev);
        let line = lines.last();
        let t = trim(line);
        let n = lines.len() - 1;
        let o = st.0;
        let target = switched_all(summaries(sc.0), icao, enabled);
        assert(summaries(close_current(scan_lines(o), 0)) == target);
        // What writing out the open block adds.
        let flushed = flush_block(st, enabled);
        let done2 = close_current(sc, n);
        assert(summaries(close_current(scan_lines(flushed), 0)) == switched_all(
            summaries(done2),
            icao,
            enabled,
        )) by {
            match st.1 {
                Some(open) => {
                    let b = sc.1->0;
                    let x = if open.1 {
                        upsert_flatten(open.0, enabled)
                    } else {
                        open.0
                    };
                    if open.1 {
                        lemma_upsert_shape(open.0, enabled);
                    }
                    assert(x[0] == open.0[0]);
                    lemma_scan_block(o, x);
                    assert(flushed == o + x);
                    let flat = if open.1 {
                        enabled
                    } else {
                        b.flattened
                    };
                    assert(has_flatten_row(x.drop_first()) == flat);
                    assert(switched((b.icao, b.name, b.flattened), icao, enabled) == (
                        b.icao,
                        b.name,
                        flat,
                    ));
                    assert(summaries(done2) =~= summaries(sc.0).push(
                        (b.icao, b.name, b.flattened),
                    ));
                    assert(switched_all(summaries(done2), icao, enabled) =~= target.push(
                        (b.icao, b.name, flat),
                    ));
                },
                None => {
                    assert(done2 == sc.0);
                },
            }
        }
        if airport_header_line(t) {
            match header_fields(t) {
                Some(f) => {
                    assert(summaries(close_current(scan_lines(flushed), 0)) =~= switched_all(
                        summaries(done2),
                        icao,
                        enabled,
                    ));
                    let single = seq![line];
                    assert(single.drop_first() =~= Seq::<Seq<char>>::empty());
                    assert(!has_flatten_row(single.drop_first()));
                },
                None => {
                    let o2 = flushed.push(line);
                    assert(o2.drop_last() =~= flushed);
                    assert(summaries(close_current(scan_lines(o2), 0)) =~= summaries(
                        close_current(scan_lines(flushed), 0),
                    ));
                },
            }
        } else {
            match st.1 {
                Some(open) => {
                    let blk2 = open.0.push(line);
                    assert(blk2[0] == open.0[0]);
                    assert(blk2.drop_first() =~= open.0.drop_first().push(line));
                    assert(no_header_rows(blk2.drop_first())) by {
                        assert forall|j: int| 0 <= j < blk2.drop_first().len() implies !airport_header_line(
                            trim(#[trigger] blk2.drop_first()[j]),
                        ) by {
                            if j < open.0.drop_first().len() {
                                assert(blk2.drop_first()[j] == open.0.drop_first()[j]);
                            }
                        }
                    }
                    let hb = has_flatten_row(open.0.drop_first());
                    let ha = has_flatten_row(blk2.drop_first());
                    assert(ha == (hb || flatten_row_line(t))) by {
                        let last = blk2.drop_first().len() - 1;
                        assert(blk2.drop_first()[last] == line);
                        if hb {
                            let j = choose|j: int| 0 <= j < open.0.drop_first().len() && flatten_row_line(
                                trim(#[trigger] open.0.drop_first()[j]),
                            );
                            assert(blk2.drop_first()[j] == open.0.drop_first()[j]);
                        }
                        if ha {
                            let j = choose|j: int| 0 <= j < blk2.drop_first().len() && flatten_row_line(
                                trim(#[trigger] blk2.drop_first()[j]),
                            );
                            if j < last {
                                assert(blk2.drop_first()[j] == open.0.drop_first()[j]);
                            }
                        }
                    }
                },
                None => {
                    let o2 = o.push(line);
                    assert(o2.drop_last() =~= o);
                },
            }
        }
    }
}

/// Switching the flatten row of an airport changes, in the summary of the
/// airport blocks, only the flattened flag of the blocks of that airport,
/// which becomes `enabled`: codes, names, order and the other blocks stay
/// as they were.
pub proof fn law_set_flatten_lines_summary(lines: Seq<Seq<char>>, icao: Seq<char>, enabled: bool)
    ensures
        summaries(airport_blocks(set_flatten_lines(lines, icao, enabled))) == switched_all(
            summaries(airport_blocks(lines)),
            icao,
            enabled,
        ),
{
    lemma_flatten_scan(lines, icao, enabled);
    let st = flatten_scan(lines, icao, enabled);
    let sc = scan_lines(lines);
    let out = set_flatten_lines(lines, icao, enabled);
    assert(summaries(airport_blocks(out)) =~= summaries(close_current(scan_lines(out), 0)));
    match st.1 {
        Some(open) => {
            let b = sc.1->0;
            let x = if open.1 {
                upsert_flatten(open.0, enabled)
            } else {
                open.0
            };
            if open.1 {
                lemma_upsert_shape(open.0, enabled);
            }
            assert(x[0] == open.0[0]);
            lemma_scan_block(st.0, x);
            let flat = if open.1 {
                enabled
            } else {
                b.flattened
            };
            assert(summaries(airport_blocks(lines)) =~= summaries(sc.0).push(
                (b.icao, b.name, b.flattened),
            ));
            assert(switched_all(summaries(airport_blocks(lines)), icao, enabled) =~= switched_all(
                summaries(sc.0),
                icao,
                enabled,
            ).push((b.icao, b.name, flat)));
        },
        None => {
            assert(summaries(airport_blocks(lines)) =~= summaries(sc.0));
        },
    }
}

/// No line holds a line feed.
pub open spec fn all_plain(xs: Seq<Seq<char>>) -> bool {
    forall|i: int| 0 <= i < xs.len() ==> no_line_feed(#[trigger] xs[i])
}

proof fn lemma_plain_concat(a: Seq<Seq<char>>, b: Seq<Seq<char>>)
    requires
        all_plain(a),
        all_plain(b),
    ensures
        all_plain(a + b),
{
    assert forall|i: int| 0 <= i < (a + b).len() implies no_line_feed(#[trigger] (a + b)[i]) by {
        if i < a.len() {
            assert((a + b)[i] == a[i]);
        } else {
            assert((a + b)[i] == b[i - a.len()]);
        }
    }
}

proof fn lemma_without_flatten_rows_plain(body: Seq<Seq<char>>)
    requires
        all_plain(body),
    ensures
        all_plain(without_flatten_rows(body)),
    decreases body.len(),
{
    if body.len() > 0 {
        let d = body.drop_last();
        assert(all_plain(d)) by {
            assert forall|i: int| 0 <= i < d.len() implies no_line_feed(#[trigger] d[i]) by {
                assert(d[i] == body[i]);
            }
        }
        lemma_without_flatten_rows_plain(d);
        let r = without_flatten_rows(d);
        assert(no_line_feed(body[body.len() - 1]));
        lemma_plain_concat(r, seq![body.last()]);
        assert(r.push(body.last()) =~= r + seq![body.last()]);
    }
}

proof fn lemma_upsert_plain(blk: Seq<Seq<char>>, enabled: bool)
    requires
        all_plain(blk),
    ensures
        all_plain(upsert_flatten(blk, enabled)),
{
    if blk.len() > 0 {
        let tail = blk.drop_first();
        assert(all_plain(tail)) by {
            assert forall|i: int| 0 <= i < tail.len() implies no_line_feed(#[trigger] tail[i]) by {
                assert(tail[i] == blk[i + 1]);
            }
        }
        lemma_without_flatten_rows_plain(tail);
        let body = without_flatten_rows(tail);
        let head = seq![blk[0]];
        assert(no_line_feed(blk[0]));
        assert(all_plain(head));
        if enabled {
            lemma_after_last_meta_row(body);
            let at = after_last_meta_row(body);
            let a = body.subrange(0, at);
            let c = body.subrange(at, body.len() as int);
            assert(all_plain(a)) by {
                assert forall|i: int| 0 <= i < a.len() implies no_line_feed(#[trigger] a[i]) by {
                    assert(a[i] == body[i]);
                }
            }
            assert(all_plain(c)) by {
                assert forall|i: int| 0 <= i < c.len() implies no_line_feed(#[trigger] c[i]) by {
                    assert(c[i] == body[i + at]);
                }
            }
            reveal_strlit("1302 flatten 1");
            let row = seq!["1302 flatten 1"@];
            assert(all_plain(row));
            lemma_plain_concat(head, a);
            lemma_plain_concat(head + a, row);
            lemma_plain_concat(head + a + row, c);
        } else {
            lemma_plain_concat(head, body);
        }
    }
}

proof fn lemma_flatten_scan_plain(lines: Seq<Seq<char>>, icao: Seq<char>, enabled: bool)
    requires
        all_plain(lines),
    ensures
        all_plain(flatten_scan(lines, icao, enabled).0),
        flatten_scan(lines, icao, enabled).1 matches Some(open) ==> all_plain(open.0),
        all_plain(set_flatten_lines(lines, icao, enabled)),
    decreases lines.len(),
{
    if lines.len() > 0 {
        let prev = lines.drop_last();
        assert(all_plain(prev)) by {
            assert forall|i: int| 0 <= i < prev.len() implies no_line_feed(#[trigger] prev[i]) by {
                assert(prev[i] == lines[i]);
            }
        }
        lemma_flatten_scan_plain(prev, icao, enabled);
        let st = flatten_scan(prev, icao, enabled);
        let line = lines.last();
        assert(no_line_feed(lines[lines.len() - 1]));
        assert(all_plain(seq![line]));
        match st.1 {
            Some(open) => {
                lemma_upsert_plain(open.0, enabled);
                lemma_plain_concat(st.0, open.0);
                lemma_plain_concat(st.0, upsert_flatten(open.0, enabled));
                lemma_plain_concat(open.0, seq![line]);
                assert(open.0.push(line) =~= open.0 + seq![line]);
            },
            None => {},
        }
        let flushed = flush_block(st, enabled);
        lemma_plain_concat(flushed, seq![line]);
        assert(flushed.push(line) =~= flushed + seq![line]);
        lemma_plain_concat(st.0, seq![line]);
        assert(st.0.push(line) =~= st.0 + seq![line]);
    }
    let st = flatten_scan(lines, icao, enabled);
    match st.1 {
        Some(open) => {
            lemma_upsert_plain(open.0, enabled);
            lemma_plain_concat(st.0, open.0);
            lemma_plain_concat(st.0, upsert_flatten(open.0, enabled));
        },
        None => {},
    }
}

proof fn lemma_scan_trims(a: Seq<Seq<char>>, b: Seq<Seq<char>>)
    requires
        a.len() == b.len(),
        forall|i: int| 0 <= i < a.len() ==> trim(#[trigger] a[i]) == trim(b[i]),
    ensures
        scan_lines(a) == scan_lines(b),
    decreases a.len(),
{
    if a.len() > 0 {
        let ad = a.drop_last();
        let bd = b.drop_last();
        assert forall|i: int| 0 <= i < ad.len() implies trim(#[trigger] ad[i]) == trim(bd[i]) by {
            assert(ad[i] == a[i] && bd[i] == b[i]);
        }
        lemma_scan_trims(ad, bd);
        assert(trim(a[a.len() - 1]) == trim(b[b.len() - 1]));
    }
}

proof fn lemma_scan_blank(a: Seq<Seq<char>>, e: Seq<char>)
    requires
        trim(e).len() == 0,
    ensures
        scan_lines(a.push(e)) == scan_lines(a),
{
    assert(a.push(e).drop_last() =~= a);
    reveal_strlit("1 ");
    reveal_strlit("16 ");
    reveal_strlit("17 ");
    assert(!airport_header_line(trim(e)));
    assert(ws_tokens(trim(e)).len() == 0);
    assert(seq!["1302"@, "flatten"@, "1"@].len() == 3);
    assert(!flatten_row_line(trim(e)));
}

proof fn lemma_summaries_close(s: ScanState, a: int, b: int)
    ensures
        summaries(close_current(s, a)) == summaries(close_current(s, b)),
{
    assert(summaries(close_current(s, a)) =~= summaries(close_current(s, b)));
}

/// The lines of a rebuilt text carry the same airport blocks as the lines
/// it was built from.
proof fn lemma_summaries_rebuild(xs: Seq<Seq<char>>, original: Seq<char>)
    requires
        all_plain(xs),
    ensures
        summaries(airport_blocks(lines(rebuild(xs, original)))) == summaries(airport_blocks(xs)),
{
    reveal_strlit("\n");
    reveal_strlit("\r\n");
    let le = line_ending(original);
    assert(le == seq!['\n'] || le == seq!['\r', '\n']);
    let trailing = original.len() > 0 && original.last() == '\n';
    let rebuilt = rebuild(xs, original);
    let ls = lines(rebuilt);
    let cr = le.drop_last();
    if xs.len() == 0 {
        assert(join(xs, le) == Seq::<char>::empty());
        if trailing {
            assert(rebuilt =~= le);
            if le == seq!['\n'] {
                assert(le =~= Seq::<char>::empty().push('\n'));
                lemma_split_push_line_feed(Seq::empty());
            } else {
                assert(le =~= seq!['\r'].push('\n'));
                lemma_split_push_line_feed(seq!['\r']);
                assert(seq!['\r'].drop_last() =~= Seq::<char>::empty());
                assert(split_pieces(Seq::<char>::empty(), '\n') =~= seq![Seq::<char>::empty()]);
                assert(split_pieces(seq!['\r'], '\n') =~= seq![seq!['\r']]);
                assert(strip_cr(seq!['\r']) =~= Seq::<char>::empty());
            }
            assert(split_pieces(Seq::<char>::empty(), '\n') =~= seq![Seq::<char>::empty()]);
            assert(ls =~= seq![Seq::<char>::empty()]);
            assert(trim(Seq::<char>::empty()) =~= Seq::<char>::empty());
            lemma_scan_blank(Seq::empty(), Seq::empty());
            assert(seq![Seq::<char>::empty()] =~= Seq::<Seq<char>>::empty().push(Seq::empty()));
            lemma_summaries_close(scan_lines(xs), 0, 1);
        } else {
            assert(rebuilt =~= Seq::<char>::empty());
            assert(split_pieces(Seq::<char>::empty(), '\n') =~= seq![Seq::<char>::empty()]);
            assert(ls =~= Seq::<Seq<char>>::empty());
        }
    } else {
        let m = xs.len();
        lemma_split_join(xs, le);
        let j = join(xs, le);
        let p = split_pieces(j, '\n');
        let q = if trailing {
            if le == seq!['\n'] {
                assert(rebuilt =~= j.push('\n'));
                lemma_split_push_line_feed(j);
            } else {
                lemma_split_pieces_nonempty(j, '\n');
                lemma_split_append_plain(j, seq!['\r']);
                assert(rebuilt =~= (j + seq!['\r']).push('\n'));
                lemma_split_push_line_feed(j + seq!['\r']);
            }
            split_pieces(rebuilt, '\n')
        } else {
            assert(rebuilt =~= j);
            p
        };
        // Each line keeps its trimmed text.
        assert forall|i: int| 0 <= i < m - 1 implies trim(strip_cr(#[trigger] p[i])) == trim(
            xs[i],
        ) by {
            if cr.len() == 1 {
                assert(cr =~= seq!['\r']);
                assert(strip_cr(p[i]) =~= xs[i]);
            } else {
                assert(cr =~= Seq::<char>::empty());
                assert(p[i] =~= xs[i]);
                if xs[i].len() > 0 && xs[i].last() == '\r' {
                    lemma_trim_drop_ws_last(xs[i]);
                }
            }
        }
        if trailing {
            assert(q.len() == m + 1);
            assert(q.last().len() == 0);
            assert(ls.len() == m);
            assert forall|i: int| 0 <= i < m implies trim(#[trigger] ls[i]) == trim(xs[i]) by {
                assert(ls[i] == strip_cr(q[i]));
                if i < m - 1 {
                    assert(q[i] == p[i]);
                } else if cr.len() == 1 {
                    assert(cr =~= seq!['\r']);
                    assert(q[i] == p.last() + seq!['\r']);
                    assert(strip_cr(q[i]) =~= xs[i]);
                } else {
                    assert(cr =~= Seq::<char>::empty());
                    assert(q[i] == p.last());
                    if xs[i].len() > 0 && xs[i].last() == '\r' {
                        lemma_trim_drop_ws_last(xs[i]);
                    }
                }
            }
            lemma_scan_trims(ls, xs);
        } else if xs.last().len() > 0 {
            assert(ls.len() == m);
            assert forall|i: int| 0 <= i < m implies trim(#[trigger] ls[i]) == trim(xs[i]) by {
                if i < m - 1 {
                    assert(ls[i] == strip_cr(p[i]));
                } else {
                    assert(ls[i] == p[i]);
                }
            }
            lemma_scan_trims(ls, xs);
        } else {
            let xd = xs.drop_last();
            assert(ls.len() == m - 1);
            assert forall|i: int| 0 <= i < m - 1 implies trim(#[trigger] ls[i]) == trim(xd[i]) by {
                assert(ls[i] == strip_cr(p[i]));
                assert(xd[i] == xs[i]);
            }
            lemma_scan_trims(ls, xd);
            assert(trim(xs.last()) =~= Seq::<char>::empty());
            lemma_scan_blank(xd, xs.last());
            assert(xd.push(xs.last()) =~= xs);
            lemma_summaries_close(scan_lines(xs), m - 1, m as int);
        }
    }
}

/// Switching the flatten row of an airport in a text changes, in the
/// airport blocks read back from the new text, only the flattened flag of
/// that airport's blocks, which becomes `enabled`.
pub proof fn law_set_flatten_text_summary(original: Seq<char>, icao: Seq<char>, enabled: bool)
    ensures
        summaries(
            airport_blocks(
                lines(rebuild(set_flatten_lines(lines(original), icao, enabled), original)),
            ),
        ) == switched_all(summaries(airport_blocks(lines(original))), icao, enabled),
{
    let ls = lines(original);
    lemma_lines_plain(original);
    lemma_flatten_scan_plain(ls, icao, enabled);
    lemma_summaries_rebuild(set_flatten_lines(ls, icao, enabled), original);
    law_set_flatten_lines_summary(ls, icao, enabled);
}

/// Where a flatten target lives.
#[derive(Debug, Clone, Copy, PartialEq, Eq, Structural)]
pub enum AirportFlattenSourceKind {
    Default,
    Custom,
}

/// How a recorded flatten choice compares with the file.
#[derive(Debug, Clone, Copy, PartialEq, Eq, Structural)]
pub enum AirportFlattenOverrideStatus {
    InSync,
    Drifted,
    SourceMissing,
}

/// The category of a scenery package, as far as flattening cares.
#[derive(Debug, Clone, Copy, PartialEq, Eq, Structural)]
pub enum SceneryCategory {
    DefaultAirport,
    Other,
}

/// What is read of an installed scenery package.
#[derive(Debug, Clone)]
pub struct SceneryPackageInfo {
    pub folder_name: String,
    pub actual_path: Option<String>,
    pub category: SceneryCategory,
    pub has_apt_dat: bool,
    pub airport_id: Option<String>,
}

/// An airport whose flatten row can be switched, and where.
#[derive(Debug, Clone)]
pub struct AirportFlattenTarget {
    pub icao: String,
    pub airport_name: String,
    pub source_kind: AirportFlattenSourceKind,
    pub source_label: String,
    pub source_path: String,
    pub folder_name: Option<String>,
    pub flattened: bool,
}

/// A row of the airport search.
#[derive(Debug, Clone)]
pub struct AirportFlattenSearchResult {
    pub icao: String,
    pub airport_name: String,
    pub has_default_source: bool,
    pub custom_source_count: u32,
}

/// A package can carry a single-airport flatten target: not the default
/// airports, with an `apt.dat`, not the global airports folder, and with an
/// airport id.
pub open spec fn flatten_target_eligible(info: SceneryPackageInfo) -> bool {
    &&& info.category != SceneryCategory::DefaultAirport
    &&& info.has_apt_dat
    &&& !eq_ignore_ascii_case(trim(info.folder_name@), "Global Airports"@)
    &&& info.airport_id matches Some(id) && id@.len() > 0
}

pub fn is_flatten_target_eligible(info: &SceneryPackageInfo) -> (r: bool)
    ensures
        r == flatten_target_eligible(*info),
{
    if info.category == SceneryCategory::DefaultAirport || !info.has_apt_dat {
        return false;
    }
    let folder = chars_of(info.folder_name.as_str());
    let trimmed = trim_vec(&folder);
    let global = chars_of("Global Airports");
    if eq_ignore_ascii_case_exec(&trimmed, &global) {
        return false;
    }
    match &info.airport_id {
        Some(id) => {
            let c = chars_of(id.as_str());
            c.len() > 0
        },
        None => false,
    }
}

/// The flatten target of a scenery package: for an eligible package whose
/// `apt.dat` (at `apt_path`, with text `apt_text` when it could be read)
/// holds exactly one airport, that airport as a custom target.
pub fn inspect_scenery_flatten_target(
    info: &SceneryPackageInfo,
    apt_path: &str,
    apt_text: Option<&str>,
) -> (r: Option<AirportFlattenTarget>)
    ensures
        match apt_text {
            Some(text) if flatten_target_eligible(*info) && airport_blocks(lines(text@)).len()
                == 1 => {
                let b = airport_blocks(lines(text@))[0];
                &&& r matches Some(t)
                &&& t.icao@ == b.icao
                &&& t.airport_name@ == b.name
                &&& t.flattened == b.flattened
                &&& t.source_kind == AirportFlattenSourceKind::Custom
                &&& t.source_label@ == info.folder_name@
                &&& t.source_path@ == apt_path@
                &&& t.folder_name matches Some(f)
                &&& f@ == info.folder_name@
            },
            _ => r is None,
        },
{
    if !is_flatten_target_eligible(info) {
        return None;
    }
    let text = match apt_text {
        Some(t) => t,
        None => return None,
    };
    let airports = summarize_apt_text(text);
    if airports.len() != 1 {
        return None;
    }
    let a = &airports[0];
    assert(block_views(airports@)[0] == a@);
    let folder = chars_of(info.folder_name.as_str());
    Some(
        AirportFlattenTarget {
            icao: string_of(&chars_of(a.icao.as_str())),
            airport_name: string_of(&chars_of(a.name.as_str())),
            source_kind: AirportFlattenSourceKind::Custom,
            source_label: string_of(&folder),
            source_path: string_of(&chars_of(apt_path)),
            folder_name: Some(string_of(&folder)),
            flattened: a.flattened,
        },
    )
}

pub fn source_kind_to_db_str(kind: AirportFlattenSourceKind) -> (r: &'static str)
    ensures
        kind == AirportFlattenSourceKind::Default ==> r@ == "default"@,
        kind == AirportFlattenSourceKind::Custom ==> r@ == "custom"@,
{
    match kind {
        AirportFlattenSourceKind::Default => "default",
        AirportFlattenSourceKind::Custom => "custom",
    }
}

/// Reads a stored source kind: `default` in any ASCII case, else custom.
pub fn source_kind_from_db_str(value: &str) -> (r: AirportFlattenSourceKind)
    ensures
        r == (if eq_ignore_ascii_case(value@, "default"@) {
            AirportFlattenSourceKind::Default
        } else {
            AirportFlattenSourceKind::Custom
        }),
{
    let v = chars_of(value);
    let d = chars_of("default");
    if eq_ignore_ascii_case_exec(&v, &d) {
        AirportFlattenSourceKind::Default
    } else {
        AirportFlattenSourceKind::Custom
    }
}

/// A recorded choice against the file: missing when the file no longer has
/// the airport, in sync when the flags agree, drifted otherwise.
pub fn classify_override_status(current: Option<bool>, desired: bool) -> (r:
    AirportFlattenOverrideStatus)
    ensures
        r == (match current {
            None => AirportFlattenOverrideStatus::SourceMissing,
            Some(v) => if v == desired {
                AirportFlattenOverrideStatus::InSync
            } else {
                AirportFlattenOverrideStatus::Drifted
            },
        }),
{
    match current {
        None => AirportFlattenOverrideStatus::SourceMissing,
        Some(value) => if value == desired {
            AirportFlattenOverrideStatus::InSync
        } else {
            AirportFlattenOverrideStatus::Drifted
        },
    }
}

/// Listing order of override states: drifted first, then missing, then in sync.
pub fn status_priority(status: AirportFlattenOverrideStatus) -> (r: u8)
    ensures
        r == (match status {
            AirportFlattenOverrideStatus::Drifted => 0u8,
            AirportFlattenOverrideStatus::SourceMissing => 1u8,
            AirportFlattenOverrideStatus::InSync => 2u8,
        }),
{
    match status {
        AirportFlattenOverrideStatus::Drifted => 0,
        AirportFlattenOverrideStatus::SourceMissing => 1,
        AirportFlattenOverrideStatus::InSync => 2,
    }
}

/// The rank of a search row for an upper-cased query: exact code, code
/// prefix, code substring, name prefix (upper-cased name), anything else.
pub open spec fn search_rank(icao: Seq<char>, name: Seq<char>, query: Seq<char>) -> i32 {
    if icao == query {
        0
    } else if starts_with(icao, query) {
        1
    } else if contains(icao, query) {
        2
    } else if starts_with(uppercase(name), query) {
        3
    } else {
        4
    }
}

/// Sort key of a search row: its rank, then the lengths (in UTF-8 bytes) of
/// code and name.
pub fn search_score(row: &AirportFlattenSearchResult, query_upper: &str) -> (r: (i32, usize, usize))
    ensures
        r.0 == search_rank(row.icao@, row.airport_name@, query_upper@),
        r.1 == vstd::utf8::encode_utf8(row.icao@).len() as usize,
        r.2 == vstd::utf8::encode_utf8(row.airport_name@).len() as usize,
{
    let name = chars_of(row.airport_name.as_str());
    let name_upper = to_uppercase_chars(&name);
    let icao = chars_of(row.icao.as_str());
    let q = chars_of(query_upper);
    let primary: i32 = if eq_chars(&icao, &q) {
        0
    } else if starts_with_exec(&icao, &q) {
        1
    } else if contains_exec(&icao, &q) {
        2
    } else if starts_with_exec(&name_upper, &q) {
        3
    } else {
        4
    };
    (primary, row.icao.as_str().len(), row.airport_name.as_str().len())
}

} // verus!
