//! What updating the cached flatten index after a switch promises: the
//! airport's record takes the new state, name and end, later records move
//! with it, the records stay in order, and every source of the airport in
//! that file shows the new state and name.

use vstd::prelude::*;
use crate::apt_index::{
    law_rewrite_keeps_index_ordered, lemma_last_match_end_unique, lemma_sort_ordered_contains, record_views,
    records_ordered, last_match_end, rewritten_record, rewritten_records, shifted_record, start_before, wrap_u64,
    CachedAirportRecord, RecordView,
};
use crate::gateway_payload::{insert_ordered, sort_ordered};
use crate::apt_index::lemma_insert_ordered_contains;
use crate::flatten_index::{
    index_rewritten, path_index, ref_of, refs_in_records, source_paths, RefView, SourceFileIndexEntry,
};
use crate::text::eq_ignore_ascii_case;

verus! {

/// The source comes from a record of the file with exactly that code.
pub open spec fn from_record(f: SourceFileIndexEntry, recs: Seq<CachedAirportRecord>, icao: Seq<char>, r: RefView) -> bool {
    exists|j: int| 0 <= j < recs.len() && recs[j].icao@ == icao && r == ref_of(f, #[trigger] recs[j])
}

/// Every source that a file gives for a code comes from one of its records
/// with exactly that code.
proof fn lemma_refs_from_records(f: SourceFileIndexEntry, recs: Seq<CachedAirportRecord>, icao: Seq<char>)
    ensures
        forall|x: int|
            0 <= x < refs_in_records(f, recs, icao).len() ==> from_record(
                f,
                recs,
                icao,
                #[trigger] refs_in_records(f, recs, icao)[x],
            ),
    decreases recs.len(),
{
    if recs.len() > 0 {
        let d = recs.drop_last();
        lemma_refs_from_records(f, d, icao);
        let prev = refs_in_records(f, d, icao);
        let cur = refs_in_records(f, recs, icao);
        assert forall|x: int| 0 <= x < cur.len() implies from_record(f, recs, icao, #[trigger] cur[x]) by {
            if x < prev.len() {
                if recs.last().icao@ == icao {
                    assert(cur == prev.push(ref_of(f, recs.last())));
                } else {
                    assert(cur == prev);
                }
                assert(cur[x] == prev[x]);
                assert(from_record(f, d, icao, prev[x]));
                let j = choose|j: int| 0 <= j < d.len() && d[j].icao@ == icao && prev[x] == ref_of(f, #[trigger] d[j]);
                assert(recs[j] == d[j]);
                assert(0 <= j < recs.len() && recs[j].icao@ == icao && cur[x] == ref_of(f, recs[j]));
            } else {
                assert(recs.last().icao@ == icao);
                assert(cur == prev.push(ref_of(f, recs.last())));
                assert(cur[x] == ref_of(f, recs.last()));
                let j = recs.len() - 1;
                assert(recs[j] == recs.last());
                assert(0 <= j < recs.len() && recs[j].icao@ == icao && cur[x] == ref_of(f, recs[j]));
            }
        }
    }
}

/// After the index of a file was brought up to date for a switch of the
/// airport whose record is the `k`-th (the only one with its code, without
/// regard to ASCII case), in the entry of that file: the records stay in
/// order; the airport's record has the new name and state and its end
/// moved by `delta`; every other record keeps its code, name, state and
/// length (later ones moved by `delta`); each source of the airport in that
/// file shows the new name and state; every other file is unchanged.
pub proof fn law_cached_switch_updates_entry(
    before: Seq<SourceFileIndexEntry>,
    after: Seq<SourceFileIndexEntry>,
    path: Seq<char>,
    icao: Seq<char>,
    flattened: bool,
    name: Seq<char>,
    delta: int,
    i: int,
    k: int,
)
    requires
        index_rewritten(before, after, path, icao, flattened, name, delta),
        path_index(source_paths(before), path) == Some(i),
        records_ordered(record_views(before[i].airports@)),
        0 <= k < before[i].airports@.len(),
        forall|j: int|
            0 <= j < before[i].airports@.len() ==> (eq_ignore_ascii_case(
                (#[trigger] before[i].airports@[j]).icao@,
                icao,
            ) <==> j == k),
        before[i].airports@[k].byte_start < before[i].airports@[k].byte_end,
        before[i].airports@[k].byte_start <= before[i].airports@[k].byte_end + delta,
        forall|j: int|
            0 <= j < before[i].airports@.len() ==> (#[trigger] before[i].airports@[j]).byte_end + delta
                < 0x1_0000_0000_0000_0000int,
    ensures
        ({
            let rs = record_views(before[i].airports@);
            let out = record_views(after[i].airports@);
            &&& out.len() == rs.len()
            &&& records_ordered(out)
            &&& out[k] == (rs[k].0, name, flattened, rs[k].3, rs[k].4 + delta)
            &&& forall|j: int|
                0 <= j < rs.len() && j != k ==> {
                    &&& (#[trigger] out[j]).0 == rs[j].0
                    &&& out[j].1 == rs[j].1
                    &&& out[j].2 == rs[j].2
                    &&& out[j].4 - out[j].3 == rs[j].4 - rs[j].3
                }
            &&& forall|x: int|
                0 <= x < refs_in_records(after[i], after[i].airports@, icao).len() ==> {
                    &&& (#[trigger] refs_in_records(after[i], after[i].airports@, icao)[x]).5 == name
                    &&& refs_in_records(after[i], after[i].airports@, icao)[x].6 == flattened
                }
            &&& forall|j: int| 0 <= j < before.len() && j != i ==> #[trigger] after[j] == before[j]
        }),
{
    crate::flatten_index::lemma_path_index(source_paths(before), path);
    let rs = record_views(before[i].airports@);
    let out = record_views(after[i].airports@);
    assert forall|j: int| 0 <= j < rs.len() implies (eq_ignore_ascii_case((#[trigger] rs[j]).0, icao) <==> j == k) by {
        assert(rs[j].0 == before[i].airports@[j].icao@);
    }
    assert forall|j: int| 0 <= j < rs.len() implies 0 <= (#[trigger] rs[j]).3 by {}
    assert forall|j: int| 0 <= j < rs.len() implies (#[trigger] rs[j]).4 + delta < 0x1_0000_0000_0000_0000int by {
        assert(rs[j].4 == before[i].airports@[j].byte_end);
    }
    assert forall|j: int| 0 <= j < rs.len() implies (#[trigger] rs[j]).4 < 0x1_0000_0000_0000_0000int by {}
    law_rewrite_keeps_index_ordered(rs, icao, flattened, name, delta, k);
    assert(out == rewritten_records(rs, icao, flattened, name, delta));
    let recs = after[i].airports@;
    let f = after[i];
    lemma_refs_from_records(f, recs, icao);
    assert forall|x: int| 0 <= x < refs_in_records(f, recs, icao).len() implies {
        &&& (#[trigger] refs_in_records(f, recs, icao)[x]).5 == name
        &&& refs_in_records(f, recs, icao)[x].6 == flattened
    } by {
        assert(from_record(f, recs, icao, refs_in_records(f, recs, icao)[x]));
        let j = choose|j: int| 0 <= j < recs.len() && recs[j].icao@ == icao && refs_in_records(f, recs, icao)[x] == ref_of(f, #[trigger] recs[j]);
        assert(out[j].0 == recs[j].icao@);
        assert(eq_ignore_ascii_case(icao, icao));
        if j != k {
            assert(out[j].0 == rs[j].0);
            assert(eq_ignore_ascii_case(rs[j].0, icao));
            assert(false);
        }
        assert(out[k].1 == recs[k].airport_name@);
        assert(out[k].2 == recs[k].flattened);
    }
}

/// Records in order of their start.
pub open spec fn starts_sorted(rs: Seq<RecordView>) -> bool {
    forall|i: int, j: int| 0 <= i < j < rs.len() ==> (#[trigger] rs[i]).3 <= (#[trigger] rs[j]).3
}

proof fn lemma_insert_sorted(s: Seq<RecordView>, x: RecordView)
    requires
        starts_sorted(s),
    ensures
        starts_sorted(insert_ordered(s, x, |a: RecordView, b: RecordView| start_before(a, b))),
    decreases s.len(),
{
    let f = |a: RecordView, b: RecordView| start_before(a, b);
    let r = insert_ordered(s, x, f);
    if s.len() == 0 {
        assert(r =~= seq![x]);
    } else if f(x, s.last()) {
        let d = s.drop_last();
        assert forall|i: int, j: int| 0 <= i < j < d.len() implies (#[trigger] d[i]).3 <= (#[trigger] d[j]).3 by {
            assert(d[i] == s[i] && d[j] == s[j]);
        }
        lemma_insert_sorted(d, x);
        let q = insert_ordered(d, x, f);
        lemma_insert_ordered_contains(d, x, f);
        assert(r == q.push(s.last()));
        assert forall|i: int, j: int| 0 <= i < j < r.len() implies (#[trigger] r[i]).3 <= (#[trigger] r[j]).3 by {
            if j < q.len() {
                assert(r[i] == q[i] && r[j] == q[j]);
            } else {
                assert(r[j] == s.last());
                assert(r[i] == q[i]);
                assert(q.contains(q[i]));
                if q[i] != x {
                    assert(d.contains(q[i]));
                    let m = choose|m: int| 0 <= m < d.len() && d[m] == q[i];
                    assert(s[m] == d[m]);
                    assert(s[m].3 <= s[s.len() - 1].3);
                }
            }
        }
    } else {
        assert(r == s.push(x));
        assert forall|i: int, j: int| 0 <= i < j < r.len() implies (#[trigger] r[i]).3 <= (#[trigger] r[j]).3 by {
            if j < s.len() {
                assert(r[i] == s[i] && r[j] == s[j]);
            } else {
                assert(r[i] == s[i]);
                assert(s[i].3 <= s[s.len() - 1].3);
            }
        }
    }
}

proof fn lemma_sort_sorted(s: Seq<RecordView>)
    ensures
        starts_sorted(sort_ordered(s, |a: RecordView, b: RecordView| start_before(a, b))),
    decreases s.len(),
{
    if s.len() > 0 {
        lemma_sort_sorted(s.drop_last());
        lemma_insert_sorted(
            sort_ordered(s.drop_last(), |a: RecordView, b: RecordView| start_before(a, b)),
            s.last(),
        );
    }
}

/// A record as a switch of `icao` in a file leaves it: the airport's own
/// record gets the new name and state and its end moved by `delta`; when
/// the size changed, a record that starts at or after the airport's old
/// end `e` moves by `delta`; offsets wrap as `u64` values do.
pub open spec fn switched_record(
    r: RecordView,
    icao: Seq<char>,
    flattened: bool,
    name: Seq<char>,
    delta: int,
    e: int,
) -> RecordView {
    if eq_ignore_ascii_case(r.0, icao) {
        (r.0, name, flattened, r.3, wrap_u64(r.4 + delta))
    } else if delta != 0 && r.3 >= e {
        (r.0, r.1, r.2, wrap_u64(r.3 + delta), wrap_u64(r.4 + delta))
    } else {
        r
    }
}

/// Whatever the order of the records, after the index of a file was
/// brought up to date for a switch of the airport whose record is the
/// `k`-th (the only one with its code, without regard to ASCII case, and
/// starting before it ends): the file's records are exactly the switched
/// records, as many as before, sorted by start; every other file is
/// unchanged.
pub proof fn law_cached_switch_any_order(
    before: Seq<SourceFileIndexEntry>,
    after: Seq<SourceFileIndexEntry>,
    path: Seq<char>,
    icao: Seq<char>,
    flattened: bool,
    name: Seq<char>,
    delta: int,
    i: int,
    k: int,
)
    requires
        index_rewritten(before, after, path, icao, flattened, name, delta),
        path_index(source_paths(before), path) == Some(i),
        0 <= k < before[i].airports@.len(),
        forall|j: int|
            0 <= j < before[i].airports@.len() ==> (eq_ignore_ascii_case(
                (#[trigger] before[i].airports@[j]).icao@,
                icao,
            ) <==> j == k),
        before[i].airports@[k].byte_start < before[i].airports@[k].byte_end,
    ensures
        ({
            let rs = record_views(before[i].airports@);
            let out = record_views(after[i].airports@);
            &&& out.len() == rs.len()
            &&& starts_sorted(out)
            &&& forall|y: RecordView| #[trigger] out.contains(y) <==> exists|j: int|
                0 <= j < rs.len() && y == switched_record(#[trigger] rs[j], icao, flattened, name, delta, rs[k].4)
            &&& forall|x: int|
                0 <= x < refs_in_records(after[i], after[i].airports@, icao).len() ==> {
                    &&& (#[trigger] refs_in_records(after[i], after[i].airports@, icao)[x]).5 == name
                    &&& refs_in_records(after[i], after[i].airports@, icao)[x].6 == flattened
                }
            &&& forall|j: int| 0 <= j < before.len() && j != i ==> #[trigger] after[j] == before[j]
        }),
{
    crate::flatten_index::lemma_path_index(source_paths(before), path);
    let rs = record_views(before[i].airports@);
    let out = record_views(after[i].airports@);
    assert forall|j: int| 0 <= j < rs.len() implies (eq_ignore_ascii_case((#[trigger] rs[j]).0, icao) <==> j == k) by {
        assert(rs[j].0 == before[i].airports@[j].icao@);
    }
    lemma_last_match_end_unique(rs, icao, k);
    let f = |a: RecordView, b: RecordView| start_before(a, b);
    let m = rs.map_values(
        |r: RecordView| shifted_record(rewritten_record(r, icao, flattened, name, delta), last_match_end(rs, icao), delta),
    );
    assert(out == sort_ordered(m, f));
    lemma_sort_sorted(m);
    lemma_sort_ordered_contains(m, f);
    assert forall|j: int| 0 <= j < rs.len() implies #[trigger] m[j] == switched_record(rs[j], icao, flattened, name, delta, rs[k].4) by {
        if j == k {
            assert(rs[k].3 < rs[k].4);
        }
    }
    assert forall|y: RecordView| #[trigger] out.contains(y) <==> exists|j: int|
        0 <= j < rs.len() && y == switched_record(#[trigger] rs[j], icao, flattened, name, delta, rs[k].4) by {
        if out.contains(y) {
            assert(m.contains(y));
            let j = choose|j: int| 0 <= j < m.len() && m[j] == y;
            assert(y == switched_record(rs[j], icao, flattened, name, delta, rs[k].4));
        }
        if exists|j: int| 0 <= j < rs.len() && y == switched_record(#[trigger] rs[j], icao, flattened, name, delta, rs[k].4) {
            let j = choose|j: int| 0 <= j < rs.len() && y == switched_record(#[trigger] rs[j], icao, flattened, name, delta, rs[k].4);
            assert(m[j] == y);
            assert(m.contains(y));
        }
    }
    let recs = after[i].airports@;
    let fe = after[i];
    lemma_refs_from_records(fe, recs, icao);
    assert forall|x: int| 0 <= x < refs_in_records(fe, recs, icao).len() implies {
        &&& (#[trigger] refs_in_records(fe, recs, icao)[x]).5 == name
        &&& refs_in_records(fe, recs, icao)[x].6 == flattened
    } by {
        assert(from_record(fe, recs, icao, refs_in_records(fe, recs, icao)[x]));
        let q = choose|q: int| 0 <= q < recs.len() && recs[q].icao@ == icao && refs_in_records(fe, recs, icao)[x] == ref_of(fe, #[trigger] recs[q]);
        assert(out[q] == crate::apt_index::record_view(recs[q]));
        assert(out.contains(out[q]));
        let j = choose|j: int| 0 <= j < rs.len() && out[q] == switched_record(#[trigger] rs[j], icao, flattened, name, delta, rs[k].4);
        assert(eq_ignore_ascii_case(icao, icao));
        if j != k {
            assert(!eq_ignore_ascii_case(rs[j].0, icao));
            assert(out[q].0 == rs[j].0);
            assert(false);
        }
    }
}


} // verus!
