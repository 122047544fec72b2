//! The flatten switch over whole `apt.dat` texts: for a text with `\n`
//! line endings and no flatten row, switching an airport on and then off
//! gives the text back, and switching it on twice gives the same text.

use vstd::prelude::*;
use crate::flatten::{
    airport_blocks, first_matching_from, law_set_flatten_text_summary, summaries, switched_all, AptBlockView,
    line_ending, rebuild, set_flatten_lines, upsert_flatten, after_last_meta_row, without_flatten_rows};
use crate::flatten_laws::{
    law_switch_on_then_off, lemma_off_is_identity, lemma_open_same, lemma_scan_is_op_scan,
    lemma_without_plain, no_flatten_rows, op_flush, op_scan_from, op_step, start_state, switch_op,
};
use crate::path_laws::{avoids, lemma_join_avoid, lemma_join_last, lemma_split_pieces_avoid};
use crate::text::{
    contains, join, lemma_split_join, lemma_split_pieces_nonempty, lemma_split_push_line_feed, lines,
    no_line_feed, occurs_at, split_pieces, strip_cr,
};

verus! {

/// Joining the pieces of a split with the separator gives the text back.
proof fn lemma_join_split(s: Seq<char>, c: char)
    ensures
        join(split_pieces(s, c), seq![c]) == s,
    decreases s.len(),
{
    if s.len() == 0 {
        assert(split_pieces(s, c) =~= seq![Seq::<char>::empty()]);
        assert(s =~= Seq::<char>::empty());
    } else {
        let d = s.drop_last();
        lemma_join_split(d, c);
        lemma_split_pieces_nonempty(d, c);
        let p = split_pieces(d, c);
        if s.last() == c {
            let q = p.push(Seq::<char>::empty());
            assert(q.drop_last() =~= p);
            assert(join(q, seq![c]) == join(p, seq![c]) + seq![c] + Seq::<char>::empty());
            assert(d + seq![c] + Seq::<char>::empty() =~= s);
        } else {
            let q = p.update(p.len() - 1, p.last().push(s.last()));
            lemma_join_extend_last(p, seq![c], seq![s.last()]);
            assert(p.last().push(s.last()) =~= p.last() + seq![s.last()]);
            assert(d + seq![s.last()] =~= s);
        }
    }
}

proof fn lemma_join_extend_last(p: Seq<Seq<char>>, sep: Seq<char>, w: Seq<char>)
    requires
        p.len() >= 1,
    ensures
        join(p.update(p.len() - 1, p.last() + w), sep) == join(p, sep) + w,
{
    let q = p.update(p.len() - 1, p.last() + w);
    if p.len() == 1 {
        assert(q[0] == p[0] + w);
    } else {
        assert(q.drop_last() =~= p.drop_last());
        assert(q.last() == p.last() + w);
        assert(join(p.drop_last(), sep) + sep + (p.last() + w) =~= (join(p.drop_last(), sep) + sep + p.last()) + w);
    }
}

/// The last piece of a split is empty exactly when the text is empty or
/// ends with the separator.
proof fn lemma_split_last(s: Seq<char>, c: char)
    ensures
        (split_pieces(s, c).last().len() == 0) == (s.len() == 0 || s.last() == c),
        s.len() > 0 && s.last() == c ==> split_pieces(s, c).len() >= 2,
{
    if s.len() > 0 {
        lemma_split_pieces_nonempty(s.drop_last(), c);
    }
}

proof fn lemma_no_crlf(t: Seq<char>)
    requires
        avoids(t, '\r'),
    ensures
        line_ending(t) == "\n"@,
{
    reveal_strlit("\r\n");
    if contains(t, "\r\n"@) {
        let i = choose|i: int| occurs_at(t, "\r\n"@, i);
        assert(t.subrange(i, i + 2)[0] == t[i]);
    }
}

/// The lines of a text without `\r` are its pieces between line feeds, the
/// last one dropped when it is empty.
proof fn lemma_lines_plain_text(t: Seq<char>)
    requires
        avoids(t, '\r'),
    ensures
        ({
            let p = split_pieces(t, '\n');
            lines(t) == if p.last().len() == 0 { p.drop_last() } else { p }
        }),
{
    let p = split_pieces(t, '\n');
    lemma_split_pieces_nonempty(t, '\n');
    lemma_split_pieces_avoid(t, '\n', '\r');
    let target = if p.last().len() == 0 { p.drop_last() } else { p };
    assert forall|i: int| 0 <= i < target.len() implies #[trigger] lines(t)[i] == target[i] by {
        assert(avoids(p[i], '\r'));
        if p[i].len() > 0 {
            assert(p[i].last() != '\r');
        }
    }
    assert(lines(t) =~= target);
}

/// A text without `\r` is what its lines rebuild.
proof fn lemma_rebuild_own_lines(t: Seq<char>)
    requires
        avoids(t, '\r'),
    ensures
        rebuild(lines(t), t) == t,
{
    reveal_strlit("\n");
    lemma_no_crlf(t);
    lemma_lines_plain_text(t);
    lemma_join_split(t, '\n');
    lemma_split_last(t, '\n');
    let p = split_pieces(t, '\n');
    assert("\n"@ =~= seq!['\n']);
    if t.len() == 0 {
        assert(p =~= seq![Seq::<char>::empty()]);
        assert(lines(t) =~= Seq::<Seq<char>>::empty());
        assert(t =~= Seq::<char>::empty());
    } else if t.last() == '\n' {
        assert(join(p, seq!['\n']) == join(p.drop_last(), seq!['\n']) + seq!['\n'] + p.last());
        assert(p.last() =~= Seq::<char>::empty());
        assert(join(p.drop_last(), seq!['\n']) + seq!['\n'] + Seq::<char>::empty() =~= join(
            p.drop_last(),
            seq!['\n'],
        ) + seq!['\n']);
    } else {
        assert(t + Seq::<char>::empty() =~= t);
    }
}

/// Every line holds neither `\r` nor `\n`.
pub open spec fn plain_lines(xs: Seq<Seq<char>>) -> bool {
    forall|i: int| 0 <= i < xs.len() ==> avoids(#[trigger] xs[i], '\r') && avoids(xs[i], '\n')
}

/// Rebuilding plain lines with `\n` endings and reading the lines back
/// gives them back, when the last one is not empty or a final line ending
/// is written.
proof fn lemma_lines_of_rebuild(xs: Seq<Seq<char>>, t: Seq<char>)
    requires
        xs.len() > 0,
        plain_lines(xs),
        line_ending(t) == "\n"@,
        (t.len() > 0 && t.last() == '\n') || xs.last().len() > 0,
    ensures
        lines(rebuild(xs, t)) == xs,
{
    reveal_strlit("\n");
    let le = "\n"@;
    assert(le =~= seq!['\n']);
    assert forall|i: int| 0 <= i < xs.len() implies no_line_feed(#[trigger] xs[i]) by {
        assert(avoids(xs[i], '\n'));
    }
    lemma_split_join(xs, le);
    let j = join(xs, le);
    let p = split_pieces(j, '\n');
    assert(le.drop_last() =~= Seq::<char>::empty());
    assert forall|i: int| 0 <= i < xs.len() - 1 implies #[trigger] p[i] == xs[i] by {
        assert(p[i] == xs[i] + le.drop_last());
        assert(xs[i] + Seq::<char>::empty() =~= xs[i]);
    }
    let r = rebuild(xs, t);
    if t.len() > 0 && t.last() == '\n' {
        assert(r =~= j.push('\n'));
        lemma_split_push_line_feed(j);
        let q = split_pieces(r, '\n');
        assert(q == p.push(Seq::<char>::empty()));
        assert forall|i: int| 0 <= i < xs.len() implies #[trigger] lines(r)[i] == xs[i] by {
            assert(lines(r)[i] == strip_cr(q[i]));
            assert(q[i] == p[i]);
            if i == xs.len() - 1 {
                assert(p[i] == xs.last());
            }
            assert(avoids(xs[i], '\r'));
            if xs[i].len() > 0 {
                assert(xs[i].last() != '\r');
            }
        }
        assert(lines(r) =~= xs);
    } else {
        assert(r =~= j);
        assert forall|i: int| 0 <= i < xs.len() implies #[trigger] lines(r)[i] == xs[i] by {
            if i < xs.len() - 1 {
                assert(lines(r)[i] == strip_cr(p[i]));
                assert(avoids(xs[i], '\r'));
                if xs[i].len() > 0 {
                    assert(xs[i].last() != '\r');
                }
            } else {
                assert(lines(r)[i] == p[i]);
            }
        }
        assert(lines(r) =~= xs);
    }
}

proof fn lemma_plain_concat(a: Seq<Seq<char>>, b: Seq<Seq<char>>)
    requires
        plain_lines(a),
        plain_lines(b),
    ensures
        plain_lines(a + b),
{
    assert forall|i: int| 0 <= i < (a + b).len() implies avoids(#[trigger] (a + b)[i], '\r') && avoids(
        (a + b)[i],
        '\n',
    ) by {
        if i < a.len() {
            assert((a + b)[i] == a[i]);
        } else {
            assert((a + b)[i] == b[i - a.len()]);
        }
    }
}

proof fn lemma_plain_sub(a: Seq<Seq<char>>, x: int, y: int)
    requires
        plain_lines(a),
        0 <= x <= y <= a.len(),
    ensures
        plain_lines(a.subrange(x, y)),
{
    assert forall|i: int| 0 <= i < a.subrange(x, y).len() implies avoids(#[trigger] a.subrange(x, y)[i], '\r')
        && avoids(a.subrange(x, y)[i], '\n') by {
        assert(a.subrange(x, y)[i] == a[x + i]);
    }
}

proof fn lemma_without_plain_lines(body: Seq<Seq<char>>)
    requires
        plain_lines(body),
    ensures
        plain_lines(without_flatten_rows(body)),
    decreases body.len(),
{
    if body.len() > 0 {
        let d = body.drop_last();
        lemma_plain_sub(body, 0, body.len() - 1);
        assert(body.subrange(0, body.len() - 1) =~= d);
        lemma_without_plain_lines(d);
        let r = without_flatten_rows(d);
        lemma_plain_sub(body, body.len() - 1, body.len() as int);
        assert(body.subrange(body.len() - 1, body.len() as int) =~= seq![body.last()]);
        lemma_plain_concat(r, seq![body.last()]);
        assert(r.push(body.last()) =~= r + seq![body.last()]);
    }
}

proof fn lemma_flatten_row_plain()
    ensures
        plain_lines(seq!["1302 flatten 1"@]),
{
    reveal_strlit("1302 flatten 1");
    let row = "1302 flatten 1"@;
    assert(row =~= seq!['1', '3', '0', '2', ' ', 'f', 'l', 'a', 't', 't', 'e', 'n', ' ', '1']);
    assert(seq![row][0] == row);
}

proof fn lemma_upsert_plain_lines(blk: Seq<Seq<char>>, enabled: bool)
    requires
        plain_lines(blk),
    ensures
        plain_lines(upsert_flatten(blk, enabled)),
{
    if blk.len() > 0 {
        let tail = blk.drop_first();
        lemma_plain_sub(blk, 1, blk.len() as int);
        assert(blk.subrange(1, blk.len() as int) =~= tail);
        lemma_without_plain_lines(tail);
        let body = without_flatten_rows(tail);
        let head = seq![blk[0]];
        lemma_plain_sub(blk, 0, 1);
        assert(blk.subrange(0, 1) =~= head);
        if enabled {
            crate::flatten::lemma_after_last_meta_row(body);
            let at = after_last_meta_row(body);
            let a = body.subrange(0, at);
            let c = body.subrange(at, body.len() as int);
            lemma_plain_sub(body, 0, at);
            lemma_plain_sub(body, at, body.len() as int);
            let row = seq!["1302 flatten 1"@];
            lemma_flatten_row_plain();
            lemma_plain_concat(head, a);
            lemma_plain_concat(head + a, row);
            lemma_plain_concat(head + a + row, c);
        } else {
            lemma_plain_concat(head, body);
        }
    }
}

/// The switch writes only plain lines out of plain lines.
proof fn lemma_scan_plain_lines(
    ls: Seq<Seq<char>>,
    icao: Seq<char>,
    enabled: bool,
)
    requires
        plain_lines(ls),
    ensures
        plain_lines(op_scan_from(start_state(), ls, icao, switch_op(enabled)).0),
        op_scan_from(start_state(), ls, icao, switch_op(enabled)).1 matches Some(o) ==> plain_lines(o.0),
    decreases ls.len(),
{
    let op = switch_op(enabled);
    if ls.len() > 0 {
        let p = ls.drop_last();
        lemma_plain_sub(ls, 0, ls.len() - 1);
        assert(ls.subrange(0, ls.len() - 1) =~= p);
        lemma_scan_plain_lines(p, icao, enabled);
        let st = op_scan_from(start_state(), p, icao, op);
        let line = ls.last();
        lemma_plain_sub(ls, ls.len() - 1, ls.len() as int);
        assert(ls.subrange(ls.len() - 1, ls.len() as int) =~= seq![line]);
        match st.1 {
            Some(o) => {
                lemma_upsert_plain_lines(o.0, enabled);
                lemma_plain_concat(st.0, o.0);
                lemma_plain_concat(st.0, upsert_flatten(o.0, enabled));
                assert(op_flush(st, op) == st.0 + op(o.0, o.1));
                lemma_plain_concat(o.0, seq![line]);
                assert(o.0.push(line) =~= o.0 + seq![line]);
            },
            None => {},
        }
        let flushed = op_flush(st, op);
        lemma_plain_concat(flushed, seq![line]);
        assert(flushed.push(line) =~= flushed + seq![line]);
        lemma_plain_concat(st.0, seq![line]);
        assert(st.0.push(line) =~= st.0 + seq![line]);
    } else {
        assert(op_scan_from(start_state(), ls, icao, op).0 =~= Seq::<Seq<char>>::empty());
    }
}

/// Switching on keeps the last line non-empty when the input's last line
/// was, over lines without flatten rows.
proof fn lemma_switch_on_last(ls: Seq<Seq<char>>, icao: Seq<char>)
    requires
        ls.len() > 0,
        ls.last().len() > 0,
        no_flatten_rows(ls),
    ensures
        set_flatten_lines(ls, icao, true).len() > 0,
        set_flatten_lines(ls, icao, true).last().len() > 0,
{
    let op = switch_op(true);
    lemma_scan_is_op_scan(ls, icao, true);
    lemma_off_is_identity(ls, icao);
    lemma_open_same(start_state(), start_state(), ls, icao, op, switch_op(false));
    let p = ls.drop_last();
    let line = ls.last();
    let prev = op_scan_from(start_state(), p, icao, op);
    let s = op_scan_from(start_state(), ls, icao, op);
    assert(s == op_step(prev, line, icao, op));
    let out = op_flush(s, op);
    match s.1 {
        Some(o) => {
            let c = o.0;
            assert(c.len() > 0 && c.last() == line);
            assert(no_flatten_rows(c));
            if o.1 {
                let body = c.drop_first();
                assert(no_flatten_rows(body)) by {
                    assert forall|j: int| 0 <= j < body.len() implies !crate::flatten::flatten_row_line(
                        crate::text::trim(#[trigger] body[j]),
                    ) by {
                        assert(body[j] == c[j + 1]);
                    }
                }
                lemma_without_plain(body);
                crate::flatten::lemma_after_last_meta_row(body);
                let at = after_last_meta_row(body);
                let u = upsert_flatten(c, true);
                let row = "1302 flatten 1"@;
                reveal_strlit("1302 flatten 1");
                assert(row.len() == 14);
                assert(u == seq![c[0]] + body.subrange(0, at) + seq![row] + body.subrange(at, body.len() as int));
                if at < body.len() {
                    assert(u.last() == body.last());
                    assert(body.last() == c.last());
                } else {
                    assert(u.last() == row);
                }
                assert(out == s.0 + u);
                assert(out.last() == u.last());
            } else {
                assert(out == s.0 + c);
                assert(out.last() == c.last());
            }
        },
        None => {
            assert(s.0.len() > 0 && s.0.last() == line);
        },
    }
}

proof fn lemma_empty_switch(icao: Seq<char>, enabled: bool)
    ensures
        set_flatten_lines(Seq::<Seq<char>>::empty(), icao, enabled) == Seq::<Seq<char>>::empty(),
{
    lemma_scan_is_op_scan(Seq::<Seq<char>>::empty(), icao, enabled);
}

/// Blocks whose summaries only differ in the flattened flag of `icao`'s
/// blocks have the same first block of `icao`, with the same name.
proof fn lemma_first_match_switched(a: Seq<AptBlockView>, b: Seq<AptBlockView>, icao: Seq<char>, e: bool, k: int)
    requires
        summaries(a) == switched_all(summaries(b), icao, e),
        0 <= k,
    ensures
        first_matching_from(a, icao, k) == first_matching_from(b, icao, k),
        first_matching_from(b, icao, k) matches Some(j) ==> a[j].name == b[j].name,
    decreases b.len() - k,
{
    assert(a.len() == summaries(a).len());
    assert(b.len() == summaries(b).len());
    if k < b.len() {
        assert(summaries(a)[k] == switched_all(summaries(b), icao, e)[k]);
        assert(a[k].icao == b[k].icao);
        assert(a[k].name == b[k].name);
        lemma_first_match_switched(a, b, icao, e, k + 1);
    }
}

/// Over a text with `\n` line endings (no `\r`) and no flatten row:
/// switching an airport on and then off rebuilds the original text, and
/// switching it on a second time rebuilds the text of the first switch.
pub proof fn law_text_switch_on_then_off(t: Seq<char>, icao: Seq<char>)
    requires
        avoids(t, '\r'),
        no_flatten_rows(lines(t)),
    ensures
        ({
            let u = rebuild(set_flatten_lines(lines(t), icao, true), t);
            &&& rebuild(set_flatten_lines(lines(u), icao, false), u) == t
            &&& rebuild(set_flatten_lines(lines(u), icao, true), u) == u
            &&& first_matching_from(airport_blocks(lines(u)), icao, 0) == first_matching_from(
                airport_blocks(lines(t)),
                icao,
                0,
            )
            &&& first_matching_from(airport_blocks(lines(t)), icao, 0) matches Some(k) ==> airport_blocks(
                lines(u),
            )[k].name == airport_blocks(lines(t))[k].name
        }),
{
    reveal_strlit("\n");
    let ls = lines(t);
    let xs = set_flatten_lines(ls, icao, true);
    let u = rebuild(xs, t);
    law_set_flatten_text_summary(t, icao, true);
    lemma_first_match_switched(airport_blocks(lines(u)), airport_blocks(ls), icao, true, 0);
    lemma_no_crlf(t);
    lemma_rebuild_own_lines(t);
    lemma_lines_plain_text(t);
    lemma_split_last(t, '\n');
    law_switch_on_then_off(ls, icao);
    let p = split_pieces(t, '\n');
    lemma_split_pieces_nonempty(t, '\n');
    let trailing = t.len() > 0 && t.last() == '\n';
    if t.len() == 0 {
        assert(ls =~= Seq::<Seq<char>>::empty());
        lemma_empty_switch(icao, true);
        lemma_empty_switch(icao, false);
        assert(join(Seq::<Seq<char>>::empty(), line_ending(t)) == Seq::<char>::empty());
        assert(u =~= Seq::<char>::empty());
        assert(u == t);
    } else {
        assert(ls.len() > 0);
        if xs.len() == 0 {
            assert(xs =~= Seq::<Seq<char>>::empty());
            lemma_empty_switch(icao, false);
            assert(false);
        }
        // The lines of the text and of the switch are plain.
        lemma_split_pieces_avoid(t, '\n', '\r');
        assert(plain_lines(ls)) by {
            assert forall|i: int| 0 <= i < ls.len() implies avoids(#[trigger] ls[i], '\r') && avoids(ls[i], '\n') by {
                assert(ls[i] == p[i]);
            }
        }
        lemma_scan_is_op_scan(ls, icao, true);
        lemma_scan_plain_lines(ls, icao, true);
        let st = op_scan_from(start_state(), ls, icao, switch_op(true));
        match st.1 {
            Some(o) => {
                lemma_upsert_plain_lines(o.0, true);
                lemma_plain_concat(st.0, o.0);
                lemma_plain_concat(st.0, upsert_flatten(o.0, true));
                assert(op_flush(st, switch_op(true)) == st.0 + switch_op(true)(o.0, o.1));
            },
            None => {},
        }
        assert(plain_lines(xs));
        if !trailing {
            assert(p.last().len() > 0);
            assert(ls == p);
            assert(ls.last() == p.last());
            lemma_switch_on_last(ls, icao);
        }
        lemma_lines_of_rebuild(xs, t);
        assert(lines(u) == xs);
        // The rebuilt text has the same line ending and final line ending.
        let le = "\n"@;
        assert(le =~= seq!['\n']);
        assert forall|i: int| 0 <= i < xs.len() implies avoids(#[trigger] xs[i], '\r') by {}
        assert(avoids(le, '\r'));
        lemma_join_avoid(xs, le, '\r');
        let j = join(xs, le);
        if trailing {
            assert(u == j + le);
            assert forall|k: int| 0 <= k < u.len() implies #[trigger] u[k] != '\r' by {
                if k < j.len() {
                    assert(u[k] == j[k]);
                } else {
                    assert(u[k] == le[k - j.len()]);
                }
            }
            assert(u.last() == '\n');
        } else {
            assert(u =~= j);
            lemma_join_last(xs, le);
            assert(avoids(xs.last(), '\n'));
            assert(xs.last()[xs.last().len() - 1] != '\n');
        }
        lemma_no_crlf(u);
        assert((u.len() > 0 && u.last() == '\n') == trailing);
        assert(rebuild(ls, u) == rebuild(ls, t));
        assert(rebuild(xs, u) == rebuild(xs, t));
    }
}

} // verus!
