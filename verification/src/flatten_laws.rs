//! What switching the flatten row of an airport promises over the lines of
//! an `apt.dat` file: a second switch overrides the first, so switching on
//! twice is switching on once, and switching off after switching on gives
//! the lines back when they held no flatten row.

use vstd::prelude::*;
use crate::flatten::{
    after_last_meta_row, airport_header_line, flatten_row_line, flatten_scan, flush_block,
    header_fields, no_header_rows, set_flatten_lines, upsert_flatten, without_flatten_rows,
    FlattenState,
};
use crate::text::{eq_ignore_ascii_case, trim};

verus! {

/// What is done with a block of the airport when it is written out.
pub open spec fn switch_op(enabled: bool) -> spec_fn(Seq<Seq<char>>, bool) -> Seq<Seq<char>> {
    |c: Seq<Seq<char>>, m: bool| if m { upsert_flatten(c, enabled) } else { c }
}

pub open spec fn op_flush(st: FlattenState, op: spec_fn(Seq<Seq<char>>, bool) -> Seq<Seq<char>>) -> Seq<
    Seq<char>,
> {
    match st.1 {
        Some(open) => st.0 + op(open.0, open.1),
        None => st.0,
    }
}

pub open spec fn op_step(
    st: FlattenState,
    line: Seq<char>,
    icao: Seq<char>,
    op: spec_fn(Seq<Seq<char>>, bool) -> Seq<Seq<char>>,
) -> FlattenState {
    let t = trim(line);
    if airport_header_line(t) {
        let out = op_flush(st, op);
        match header_fields(t) {
            Some(f) => (out, Some((seq![line], eq_ignore_ascii_case(f.0, icao)))),
            None => (out.push(line), None),
        }
    } else {
        match st.1 {
            Some(open) => (st.0, Some((open.0.push(line), open.1))),
            None => (st.0.push(line), None),
        }
    }
}

/// The rewrite of `flatten_scan`, from a given state, with any block
/// operation.
pub open spec fn op_scan_from(
    st: FlattenState,
    lines: Seq<Seq<char>>,
    icao: Seq<char>,
    op: spec_fn(Seq<Seq<char>>, bool) -> Seq<Seq<char>>,
) -> FlattenState
    decreases lines.len(),
{
    if lines.len() == 0 {
        st
    } else {
        op_step(op_scan_from(st, lines.drop_last(), icao, op), lines.last(), icao, op)
    }
}

pub open spec fn start_state() -> FlattenState {
    (Seq::empty(), None)
}

pub open spec fn header_code(t: Seq<char>) -> Seq<char> {
    match header_fields(t) {
        Some(f) => f.0,
        None => Seq::empty(),
    }
}

/// A block as the scan keeps it open: a readable header whose code decides
/// `m`, then lines that open no block.
pub open spec fn open_block(c: Seq<Seq<char>>, m: bool, icao: Seq<char>) -> bool {
    &&& c.len() >= 1
    &&& airport_header_line(trim(c[0]))
    &&& header_fields(trim(c[0])) is Some
    &&& eq_ignore_ascii_case(header_code(trim(c[0])), icao) == m
    &&& no_header_rows(c.drop_first())
}

pub proof fn lemma_scan_is_op_scan(lines: Seq<Seq<char>>, icao: Seq<char>, enabled: bool)
    ensures
        flatten_scan(lines, icao, enabled) == op_scan_from(start_state(), lines, icao, switch_op(enabled)),
        set_flatten_lines(lines, icao, enabled) == op_flush(
            op_scan_from(start_state(), lines, icao, switch_op(enabled)),
            switch_op(enabled),
        ),
    decreases lines.len(),
{
    if lines.len() > 0 {
        lemma_scan_is_op_scan(lines.drop_last(), icao, enabled);
        let st = flatten_scan(lines.drop_last(), icao, enabled);
        assert(flush_block(st, enabled) == op_flush(st, switch_op(enabled)));
    }
    let st = flatten_scan(lines, icao, enabled);
    assert(flush_block(st, enabled) == op_flush(st, switch_op(enabled)));
}

proof fn lemma_open_block(
    st: FlattenState,
    lines: Seq<Seq<char>>,
    icao: Seq<char>,
    op: spec_fn(Seq<Seq<char>>, bool) -> Seq<Seq<char>>,
)
    requires
        st.1 matches Some(o) ==> open_block(o.0, o.1, icao),
    ensures
        op_scan_from(st, lines, icao, op).1 matches Some(o) ==> open_block(o.0, o.1, icao),
    decreases lines.len(),
{
    if lines.len() > 0 {
        lemma_open_block(st, lines.drop_last(), icao, op);
        let prev = op_scan_from(st, lines.drop_last(), icao, op);
        let line = lines.last();
        if !airport_header_line(trim(line)) {
            match prev.1 {
                Some(o) => {
                    let c = o.0.push(line);
                    assert(c[0] == o.0[0]);
                    assert forall|j: int| 0 <= j < c.drop_first().len() implies !airport_header_line(
                        trim(#[trigger] c.drop_first()[j]),
                    ) by {
                        if j < o.0.drop_first().len() {
                            assert(c.drop_first()[j] == o.0.drop_first()[j]);
                        } else {
                            assert(c.drop_first()[j] == line);
                        }
                    }
                },
                None => {},
            }
        } else {
            let c = seq![line];
            assert(c.drop_first() =~= Seq::<Seq<char>>::empty());
        }
    }
}

/// The open part of the scan does not depend on the block operation.
pub proof fn lemma_open_same(
    st: FlattenState,
    st2: FlattenState,
    lines: Seq<Seq<char>>,
    icao: Seq<char>,
    op: spec_fn(Seq<Seq<char>>, bool) -> Seq<Seq<char>>,
    op2: spec_fn(Seq<Seq<char>>, bool) -> Seq<Seq<char>>,
)
    requires
        st.1 == st2.1,
    ensures
        op_scan_from(st, lines, icao, op).1 == op_scan_from(st2, lines, icao, op2).1,
    decreases lines.len(),
{
    if lines.len() > 0 {
        lemma_open_same(st, st2, lines.drop_last(), icao, op, op2);
    }
}

/// Scanning a whole block from any state closes what was open and leaves
/// the block open.
proof fn lemma_scan_whole_block(
    st: FlattenState,
    x: Seq<Seq<char>>,
    m: bool,
    icao: Seq<char>,
    op: spec_fn(Seq<Seq<char>>, bool) -> Seq<Seq<char>>,
)
    requires
        open_block(x, m, icao),
    ensures
        op_scan_from(st, x, icao, op) == (op_flush(st, op), Some((x, m))),
    decreases x.len(),
{
    let f = header_fields(trim(x[0])).unwrap();
    assert(header_code(trim(x[0])) == f.0);
    if x.len() == 1 {
        assert(x.drop_last() =~= Seq::<Seq<char>>::empty());
        assert(op_scan_from(st, x.drop_last(), icao, op) == st);
        assert(x.last() == x[0]);
        assert(seq![x[0]] =~= x);
        assert(op_scan_from(st, x, icao, op) == op_step(st, x[0], icao, op));
    } else {
        let xd = x.drop_last();
        assert(xd[0] == x[0]);
        assert forall|j: int| 0 <= j < xd.drop_first().len() implies !airport_header_line(
            trim(#[trigger] xd.drop_first()[j]),
        ) by {
            assert(xd.drop_first()[j] == x.drop_first()[j]);
        }
        lemma_scan_whole_block(st, xd, m, icao, op);
        assert(x.drop_first()[x.len() - 2] == x.last());
        assert(!airport_header_line(trim(x.last())));
        assert(xd.push(x.last()) =~= x);
        assert(op_scan_from(st, x, icao, op) == op_step(op_scan_from(st, xd, icao, op), x.last(), icao, op));
    }
}

proof fn lemma_scan_from_concat(
    st: FlattenState,
    a: Seq<Seq<char>>,
    b: Seq<Seq<char>>,
    icao: Seq<char>,
    op: spec_fn(Seq<Seq<char>>, bool) -> Seq<Seq<char>>,
)
    ensures
        op_scan_from(st, a + b, icao, op) == op_scan_from(op_scan_from(st, a, icao, op), b, icao, op),
    decreases b.len(),
{
    if b.len() == 0 {
        assert(a + b =~= a);
    } else {
        lemma_scan_from_concat(st, a, b.drop_last(), icao, op);
        assert((a + b).drop_last() =~= a + b.drop_last());
        assert((a + b).last() == b.last());
    }
}

/// Lines without flatten rows.
pub open spec fn no_flatten_rows(b: Seq<Seq<char>>) -> bool {
    forall|j: int| 0 <= j < b.len() ==> !flatten_row_line(trim(#[trigger] b[j]))
}

pub proof fn lemma_without_plain(b: Seq<Seq<char>>)
    ensures
        no_flatten_rows(without_flatten_rows(b)),
        no_flatten_rows(b) ==> without_flatten_rows(b) == b,
    decreases b.len(),
{
    if b.len() > 0 {
        let d = b.drop_last();
        lemma_without_plain(d);
        let r = without_flatten_rows(d);
        if !flatten_row_line(trim(b.last())) {
            assert forall|j: int| 0 <= j < r.push(b.last()).len() implies !flatten_row_line(
                trim(#[trigger] r.push(b.last())[j]),
            ) by {
                if j < r.len() {
                    assert(r.push(b.last())[j] == r[j]);
                }
            }
        }
        if no_flatten_rows(b) {
            assert forall|j: int| 0 <= j < d.len() implies !flatten_row_line(trim(#[trigger] d[j])) by {
                assert(d[j] == b[j]);
            }
            assert(!flatten_row_line(trim(b[b.len() - 1])));
            assert(d.push(b.last()) =~= b);
        }
    } else {
        assert(b =~= Seq::<Seq<char>>::empty());
    }
}

proof fn lemma_without_concat(a: Seq<Seq<char>>, b: Seq<Seq<char>>)
    ensures
        without_flatten_rows(a + b) == without_flatten_rows(a) + without_flatten_rows(b),
    decreases b.len(),
{
    if b.len() == 0 {
        assert(a + b =~= a);
        assert(without_flatten_rows(a) + without_flatten_rows(b) =~= without_flatten_rows(a));
    } else {
        lemma_without_concat(a, b.drop_last());
        assert((a + b).drop_last() =~= a + b.drop_last());
        assert((a + b).last() == b.last());
        let wa = without_flatten_rows(a);
        let wb = without_flatten_rows(b.drop_last());
        if !flatten_row_line(trim(b.last())) {
            assert((wa + wb).push(b.last()) =~= wa + wb.push(b.last()));
        }
    }
}

proof fn lemma_plain_subrange(w: Seq<Seq<char>>, i: int, j: int)
    requires
        no_flatten_rows(w),
        0 <= i <= j <= w.len(),
    ensures
        no_flatten_rows(w.subrange(i, j)),
{
    assert forall|k: int| 0 <= k < w.subrange(i, j).len() implies !flatten_row_line(
        trim(#[trigger] w.subrange(i, j)[k]),
    ) by {
        assert(w.subrange(i, j)[k] == w[i + k]);
    }
}

/// A second switch of a block overrides the first.
proof fn lemma_upsert_twice(c: Seq<Seq<char>>, e1: bool, e2: bool)
    ensures
        upsert_flatten(upsert_flatten(c, e1), e2) == upsert_flatten(c, e2),
{
    if c.len() > 0 {
        let w = without_flatten_rows(c.drop_first());
        lemma_without_plain(c.drop_first());
        let u = upsert_flatten(c, e1);
        assert(u[0] == c[0]);
        let ub = u.drop_first();
        if e1 {
            crate::flatten::lemma_after_last_meta_row(w);
            let at = after_last_meta_row(w);
            let row = "1302 flatten 1"@;
            assert(ub =~= w.subrange(0, at) + seq![row] + w.subrange(at, w.len() as int));
            lemma_without_concat(w.subrange(0, at) + seq![row], w.subrange(at, w.len() as int));
            lemma_without_concat(w.subrange(0, at), seq![row]);
            crate::flatten::lemma_flatten_row_text();
            assert(seq![row].drop_last() =~= Seq::<Seq<char>>::empty());
            assert(seq![row].last() == row);
            assert(without_flatten_rows(seq![row].drop_last()) =~= Seq::<Seq<char>>::empty());
            assert(flatten_row_line(trim(seq![row].last())));
            assert(without_flatten_rows(seq![row]) =~= Seq::<Seq<char>>::empty());
            lemma_plain_subrange(w, 0, at);
            lemma_plain_subrange(w, at, w.len() as int);
            lemma_without_plain(w.subrange(0, at));
            lemma_without_plain(w.subrange(at, w.len() as int));
            assert(w.subrange(0, at) + Seq::<Seq<char>>::empty() + w.subrange(at, w.len() as int) =~= w);
            assert(without_flatten_rows(ub) == w);
        } else {
            assert(ub =~= w);
            lemma_without_plain(w);
        }
        assert(upsert_flatten(u, e2) =~= upsert_flatten(c, e2));
    }
}

/// Scanning the output of a first switch with a second one, line by line
/// of the input: the second scan, once flushed, gives what a single scan
/// with the second switch gives; while no block is open, nothing of the
/// second scan is open either.
proof fn lemma_second_pass(lines: Seq<Seq<char>>, icao: Seq<char>, e1: bool, e2: bool)
    ensures
        ({
            let s1 = op_scan_from(start_state(), lines, icao, switch_op(e1));
            let s2 = op_scan_from(start_state(), lines, icao, switch_op(e2));
            let t = op_scan_from(start_state(), s1.0, icao, switch_op(e2));
            &&& s1.1 == s2.1
            &&& op_flush(t, switch_op(e2)) == s2.0
            &&& (s1.1 is None ==> t.1 is None)
        }),
    decreases lines.len(),
{
    let op1 = switch_op(e1);
    let op2 = switch_op(e2);
    lemma_open_same(start_state(), start_state(), lines, icao, op1, op2);
    if lines.len() > 0 {
        let p = lines.drop_last();
        let line = lines.last();
        lemma_second_pass(p, icao, e1, e2);
        lemma_open_block(start_state(), p, icao, op1);
        let s1 = op_scan_from(start_state(), p, icao, op1);
        let s2 = op_scan_from(start_state(), p, icao, op2);
        let t = op_scan_from(start_state(), s1.0, icao, op2);
        lemma_open_same(start_state(), start_state(), p, icao, op1, op2);
        let n1 = op_step(s1, line, icao, op1);
        let n2 = op_step(s2, line, icao, op2);
        assert(op_scan_from(start_state(), lines, icao, op1) == n1);
        assert(op_scan_from(start_state(), lines, icao, op2) == n2);
        let tr = trim(line);
        let one = seq![line];
        assert(one.drop_last() =~= Seq::<Seq<char>>::empty());
        assert(one.last() == line);
        match s1.1 {
            Some(o) => {
                let c = o.0;
                let m = o.1;
                let x = op1(c, m);
                lemma_upsert_twice(c, e1, e2);
                assert(op2(x, m) == op2(c, m));
                if m {
                    crate::flatten::lemma_upsert_shape(c, e1);
                }
                assert(open_block(x, m, icao));
                lemma_scan_from_concat(start_state(), s1.0, x, icao, op2);
                lemma_scan_whole_block(t, x, m, icao, op2);
                let tx = op_scan_from(start_state(), s1.0 + x, icao, op2);
                assert(tx == (op_flush(t, op2), Some((x, m))));
                assert(op_flush(s2, op2) == s2.0 + op2(c, m));
                if airport_header_line(tr) {
                    match header_fields(tr) {
                        Some(f) => {
                            assert(n1.0 == s1.0 + x);
                            assert(op_flush(tx, op2) == n2.0);
                        },
                        None => {
                            assert(n1.0 == (s1.0 + x).push(line));
                            assert((s1.0 + x).push(line) =~= (s1.0 + x) + one);
                            lemma_scan_from_concat(start_state(), s1.0 + x, one, icao, op2);
                            let tn = op_scan_from(start_state(), n1.0, icao, op2);
                            assert(op_scan_from(tx, one.drop_last(), icao, op2) == tx);
                            assert(op_scan_from(tx, one, icao, op2) == op_step(tx, line, icao, op2));
                            assert(n1.0 == (s1.0 + x) + one);
                            assert(tn == op_step(tx, line, icao, op2));
                            assert(tn == (op_flush(tx, op2).push(line), None::<(Seq<Seq<char>>, bool)>));
                            assert(op_flush(tn, op2) == n2.0);
                        },
                    }
                } else {
                    assert(n1.0 == s1.0);
                    assert(n2.0 == s2.0);
                }
            },
            None => {
                assert(op_flush(t, op2) == t.0);
                assert(t.0 == s2.0);
                if airport_header_line(tr) {
                    match header_fields(tr) {
                        Some(f) => {
                            assert(n1.0 == s1.0);
                            assert(n2.0 == s2.0);
                        },
                        None => {
                            assert(s1.0.push(line) =~= s1.0 + one);
                            lemma_scan_from_concat(start_state(), s1.0, one, icao, op2);
                            let tn = op_scan_from(start_state(), n1.0, icao, op2);
                            assert(op_scan_from(t, one.drop_last(), icao, op2) == t);
                            assert(op_scan_from(t, one, icao, op2) == op_step(t, line, icao, op2));
                            assert(n1.0 == s1.0 + one);
                            assert(tn == op_step(t, line, icao, op2));
                            assert(op_flush(tn, op2) == n2.0);
                        },
                    }
                } else {
                    assert(s1.0.push(line) =~= s1.0 + one);
                    lemma_scan_from_concat(start_state(), s1.0, one, icao, op2);
                    let tn = op_scan_from(start_state(), n1.0, icao, op2);
                    assert(op_scan_from(t, one.drop_last(), icao, op2) == t);
                    assert(op_scan_from(t, one, icao, op2) == op_step(t, line, icao, op2));
                    assert(n1.0 == s1.0 + one);
                    assert(tn == op_step(t, line, icao, op2));
                    assert(op_flush(tn, op2) == n2.0);
                }
            },
        }
    }
}

/// Switching the flatten row of an airport twice is switching it once, to
/// the second state: switching on twice is switching on once, and
/// switching off after switching on is switching off.
pub proof fn law_second_switch_overrides(lines: Seq<Seq<char>>, icao: Seq<char>, e1: bool, e2: bool)
    ensures
        set_flatten_lines(set_flatten_lines(lines, icao, e1), icao, e2) == set_flatten_lines(
            lines,
            icao,
            e2,
        ),
{
    let op1 = switch_op(e1);
    let op2 = switch_op(e2);
    lemma_scan_is_op_scan(lines, icao, e1);
    lemma_scan_is_op_scan(lines, icao, e2);
    let once = set_flatten_lines(lines, icao, e1);
    lemma_scan_is_op_scan(once, icao, e2);
    lemma_second_pass(lines, icao, e1, e2);
    lemma_open_block(start_state(), lines, icao, op1);
    let s1 = op_scan_from(start_state(), lines, icao, op1);
    let s2 = op_scan_from(start_state(), lines, icao, op2);
    let t = op_scan_from(start_state(), s1.0, icao, op2);
    match s1.1 {
        Some(o) => {
            let (c, m) = o;
            let x = op1(c, m);
            lemma_upsert_twice(c, e1, e2);
            if m {
                crate::flatten::lemma_upsert_shape(c, e1);
            }
            assert(open_block(x, m, icao));
            assert(once == s1.0 + x);
            lemma_scan_from_concat(start_state(), s1.0, x, icao, op2);
            lemma_scan_whole_block(t, x, m, icao, op2);
        },
        None => {
            assert(once == s1.0);
        },
    }
}

/// Scanning with switching off, over lines without flatten rows, writes
/// every line back as it was.
pub proof fn lemma_off_is_identity(lines: Seq<Seq<char>>, icao: Seq<char>)
    requires
        no_flatten_rows(lines),
    ensures
        op_flush(
            op_scan_from(start_state(), lines, icao, switch_op(false)),
            switch_op(false),
        ) == lines,
        op_scan_from(start_state(), lines, icao, switch_op(false)).1 matches Some(o) ==> no_flatten_rows(
            o.0,
        ),
    decreases lines.len(),
{
    let op = switch_op(false);
    if lines.len() == 0 {
        assert(lines =~= Seq::<Seq<char>>::empty());
    } else {
        let p = lines.drop_last();
        let line = lines.last();
        assert forall|j: int| 0 <= j < p.len() implies !flatten_row_line(trim(#[trigger] p[j])) by {
            assert(p[j] == lines[j]);
        }
        assert(!flatten_row_line(trim(lines[lines.len() - 1])));
        lemma_off_is_identity(p, icao);
        lemma_open_block(start_state(), p, icao, op);
        lemma_open_block(start_state(), lines, icao, op);
        let s = op_scan_from(start_state(), p, icao, op);
        match s.1 {
            Some(o) => {
                let c = o.0;
                lemma_without_plain(c.drop_first());
                assert(op(c, o.1) =~= c) by {
                    if o.1 {
                        assert(upsert_flatten(c, false) =~= seq![c[0]] + c.drop_first());
                    }
                }
                assert(no_flatten_rows(c.push(line))) by {
                    assert forall|j: int| 0 <= j < c.push(line).len() implies !flatten_row_line(
                        trim(#[trigger] c.push(line)[j]),
                    ) by {
                        if j < c.len() {
                            assert(c.push(line)[j] == c[j]);
                        }
                    }
                }
                assert((s.0 + c).push(line) =~= s.0 + c.push(line));
            },
            None => {},
        }
        let n = op_scan_from(start_state(), lines, icao, op);
        match n.1 {
            Some(o2) => {
                let c2 = o2.0;
                lemma_without_plain(c2.drop_first());
                assert(no_flatten_rows(c2.drop_first())) by {
                    assert forall|j: int| 0 <= j < c2.drop_first().len() implies !flatten_row_line(
                        trim(#[trigger] c2.drop_first()[j]),
                    ) by {
                        assert(c2.drop_first()[j] == c2[j + 1]);
                    }
                }
                assert(op(c2, o2.1) =~= c2) by {
                    if o2.1 {
                        assert(upsert_flatten(c2, false) =~= seq![c2[0]] + c2.drop_first());
                    }
                }
            },
            None => {},
        }
        assert(p.push(line) =~= lines);
    }
}

/// Switching the flatten row of an airport on and then off gives back
/// lines that held no flatten row.
pub proof fn law_switch_on_then_off(lines: Seq<Seq<char>>, icao: Seq<char>)
    requires
        no_flatten_rows(lines),
    ensures
        set_flatten_lines(set_flatten_lines(lines, icao, true), icao, false) == lines,
        set_flatten_lines(set_flatten_lines(lines, icao, true), icao, true) == set_flatten_lines(
            lines,
            icao,
            true,
        ),
{
    law_second_switch_overrides(lines, icao, true, false);
    law_second_switch_overrides(lines, icao, true, true);
    lemma_scan_is_op_scan(lines, icao, false);
    lemma_off_is_identity(lines, icao);
}

} // verus!
