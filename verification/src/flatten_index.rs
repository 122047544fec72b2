//! The index of flatten targets over all `apt.dat` files of an X-Plane
//! installation: the airports of each file, the search rows, where an
//! airport can be switched, and how a switch request finds its file.

use vstd::prelude::*;
use crate::apt_index::{
    apply_block_rewrite, record_view, record_views, rewritten_records, CachedAirportRecord,
    RecordView,
};
use crate::flatten::{
    search_rank, search_score, AirportFlattenSearchResult, AirportFlattenSourceKind, AirportFlattenTarget,
};
use crate::gateway_payload::{insert_ordered, lemma_insert_ordered_at, sort_ordered};
use crate::text::{
    chars_less, chars_of, copy_opt_string, eq_chars, eq_ignore_ascii_case, eq_ignore_ascii_case_exec,
    contains, contains_exec, lowercase, opt_chars, push_all, seq_less, string_of, to_lowercase_chars,
    to_uppercase_chars, trim, trim_vec, uppercase,
};

verus! {

/// When a file was last seen: its modification time (ms) and length.
#[derive(Debug, Clone)]
pub struct FileStamp {
    pub modified_ms: Option<u64>,
    pub len: u64,
}

/// One indexed `apt.dat` file: where it comes from, and its airports.
#[derive(Debug, Clone)]
pub struct SourceFileIndexEntry {
    pub source_kind: AirportFlattenSourceKind,
    pub source_label: String,
    pub source_path: String,
    pub folder_name: Option<String>,
    pub stamp: FileStamp,
    pub airports: Vec<CachedAirportRecord>,
}

/// An airport in one file, where a switch can be made.
#[derive(Debug, Clone)]
pub struct FlattenSourceRef {
    pub icao: String,
    pub source_kind: AirportFlattenSourceKind,
    pub source_label: String,
    pub source_path: String,
    pub folder_name: Option<String>,
    pub airport_name: String,
    pub flattened: bool,
}

/// A source as plain values: code, kind, label, path, folder, name,
/// flattened.
pub type RefView = (Seq<char>, AirportFlattenSourceKind, Seq<char>, Seq<char>, Option<Seq<char>>, Seq<char>, bool);

pub open spec fn ref_view(r: FlattenSourceRef) -> RefView {
    (r.icao@, r.source_kind, r.source_label@, r.source_path@, opt_chars(r.folder_name), r.airport_name@, r.flattened)
}

pub open spec fn ref_views(v: Seq<FlattenSourceRef>) -> Seq<RefView> {
    v.map_values(|r: FlattenSourceRef| ref_view(r))
}

/// The source of an airport record of a file.
pub open spec fn ref_of(f: SourceFileIndexEntry, a: CachedAirportRecord) -> RefView {
    (a.icao@, f.source_kind, f.source_label@, f.source_path@, opt_chars(f.folder_name), a.airport_name@, a.flattened)
}

/// The sources of the records with exactly this code, in order.
pub open spec fn refs_in_records(f: SourceFileIndexEntry, recs: Seq<CachedAirportRecord>, icao: Seq<char>) -> Seq<
    RefView,
>
    decreases recs.len(),
{
    if recs.len() == 0 {
        Seq::empty()
    } else {
        let prev = refs_in_records(f, recs.drop_last(), icao);
        if recs.last().icao@ == icao {
            prev.push(ref_of(f, recs.last()))
        } else {
            prev
        }
    }
}

/// The sources of the airport with exactly this code, file by file.
pub open spec fn refs_in_files(files: Seq<SourceFileIndexEntry>, icao: Seq<char>) -> Seq<RefView>
    decreases files.len(),
{
    if files.len() == 0 {
        Seq::empty()
    } else {
        refs_in_files(files.drop_last(), icao) + refs_in_records(files.last(), files.last().airports@, icao)
    }
}

pub open spec fn label_before(a: RefView, b: RefView) -> bool {
    seq_less(a.2, b.2)
}

/// The sources of an airport, sorted by label.
pub open spec fn sources_for(files: Seq<SourceFileIndexEntry>, icao: Seq<char>) -> Seq<RefView> {
    sort_ordered(refs_in_files(files, icao), |a: RefView, b: RefView| label_before(a, b))
}

fn ref_from(f: &SourceFileIndexEntry, a: &CachedAirportRecord) -> (r: FlattenSourceRef)
    ensures
        ref_view(r) == ref_of(*f, *a),
{
    FlattenSourceRef {
        icao: string_of(&chars_of(a.icao.as_str())),
        source_kind: f.source_kind,
        source_label: string_of(&chars_of(f.source_label.as_str())),
        source_path: string_of(&chars_of(f.source_path.as_str())),
        folder_name: copy_opt_string(&f.folder_name),
        airport_name: string_of(&chars_of(a.airport_name.as_str())),
        flattened: a.flattened,
    }
}

fn copy_ref(r: &FlattenSourceRef) -> (c: FlattenSourceRef)
    ensures
        ref_view(c) == ref_view(*r),
{
    FlattenSourceRef {
        icao: string_of(&chars_of(r.icao.as_str())),
        source_kind: r.source_kind,
        source_label: string_of(&chars_of(r.source_label.as_str())),
        source_path: string_of(&chars_of(r.source_path.as_str())),
        folder_name: copy_opt_string(&r.folder_name),
        airport_name: string_of(&chars_of(r.airport_name.as_str())),
        flattened: r.flattened,
    }
}

/// Sorts sources by label, keeping the order of equal labels.
fn sort_by_label(v: Vec<FlattenSourceRef>) -> (r: Vec<FlattenSourceRef>)
    ensures
        ref_views(r@) == sort_ordered(ref_views(v@), |a: RefView, b: RefView| label_before(a, b)),
{
    let ghost f = |a: RefView, b: RefView| label_before(a, b);
    let ghost m = ref_views(v@);
    let n = v.len();
    let mut rest = v;
    let mut out: Vec<FlattenSourceRef> = Vec::new();
    assert(m.subrange(0, 0) =~= Seq::<RefView>::empty());
    assert(ref_views(rest@) =~= m.subrange(0, n as int));
    assert(ref_views(out@) =~= Seq::<RefView>::empty());
    while rest.len() > 0
        invariant
            rest.len() <= n,
            n == m.len(),
            f == (|a: RefView, b: RefView| label_before(a, b)),
            ref_views(rest@) == m.subrange((n - rest.len()) as int, n as int),
            ref_views(out@) == sort_ordered(m.subrange(0, (n - rest.len()) as int), f),
        decreases rest.len(),
    {
        let ghost k = (n - rest.len()) as int;
        let ghost rv = ref_views(rest@);
        let x = rest.remove(0);
        assert(ref_view(x) == rv[0]);
        assert(m[k] == rv[0]);
        assert(ref_views(rest@) =~= rv.drop_first());
        assert(m.subrange(k, n as int).drop_first() =~= m.subrange(k + 1, n as int));
        assert(m.subrange(0, k + 1).drop_last() =~= m.subrange(0, k));
        assert(m.subrange(0, k + 1).last() == m[k]);
        let ghost sv = ref_views(out@);
        let xl = chars_of(x.source_label.as_str());
        let mut p: usize = out.len();
        while p > 0 && chars_less(&xl, &chars_of(out[p - 1].source_label.as_str()))
            invariant
                0 <= p <= out.len(),
                sv == ref_views(out@),
                xl@ == x.source_label@,
                forall|q: int| p <= q < sv.len() ==> label_before(ref_view(x), #[trigger] sv[q]),
            decreases p,
        {
            assert(sv[p - 1] == ref_view(out@[p - 1]));
            p = p - 1;
        }
        proof {
            if p > 0 {
                assert(sv[p - 1] == ref_view(out@[p - 1]));
            }
            assert forall|q: int| p <= q < sv.len() implies f(ref_view(x), #[trigger] sv[q]) by {}
            lemma_insert_ordered_at(sv, ref_view(x), f, p as int);
        }
        out.insert(p, x);
        assert(ref_views(out@) =~= sv.subrange(0, p as int).push(m[k]) + sv.subrange(p as int, sv.len() as int));
    }
    assert(m.subrange(0, n as int) =~= m);
    out
}

/// Every source of the airport with exactly this code, over all files,
/// sorted by label.
pub fn sources_for_icao(files: &Vec<SourceFileIndexEntry>, icao: &str) -> (r: Vec<FlattenSourceRef>)
    ensures
        ref_views(r@) == sources_for(files@, icao@),
{
    let code = chars_of(icao);
    let mut found: Vec<FlattenSourceRef> = Vec::new();
    let mut i: usize = 0;
    assert(files@.subrange(0, 0) =~= Seq::<SourceFileIndexEntry>::empty());
    while i < files.len()
        invariant
            0 <= i <= files.len(),
            code@ == icao@,
            ref_views(found@) == refs_in_files(files@.subrange(0, i as int), icao@),
        decreases files.len() - i,
    {
        let f = &files[i];
        let ghost base = ref_views(found@);
        let mut j: usize = 0;
        assert(f.airports@.subrange(0, 0) =~= Seq::<CachedAirportRecord>::empty());
        assert(base + Seq::<RefView>::empty() =~= base);
        while j < f.airports.len()
            invariant
                0 <= j <= f.airports.len(),
                code@ == icao@,
                ref_views(found@) == base + refs_in_records(*f, f.airports@.subrange(0, j as int), icao@),
            decreases f.airports.len() - j,
        {
            let a = &f.airports[j];
            let ghost sub = f.airports@.subrange(0, j + 1);
            assert(sub.drop_last() =~= f.airports@.subrange(0, j as int));
            assert(sub.last() == *a);
            let ghost before = ref_views(found@);
            if eq_chars(&chars_of(a.icao.as_str()), &code) {
                found.push(ref_from(f, a));
                assert(ref_views(found@) =~= before.push(ref_of(*f, *a)));
            }
            j = j + 1;
        }
        assert(f.airports@.subrange(0, f.airports@.len() as int) =~= f.airports@);
        let ghost subf = files@.subrange(0, i + 1);
        assert(subf.drop_last() =~= files@.subrange(0, i as int));
        assert(subf.last() == *f);
        i = i + 1;
    }
    assert(files@.subrange(0, files@.len() as int) =~= files@);
    sort_by_label(found)
}

/// The source of the custom file of a folder that holds a single airport
/// (the last such file).
pub open spec fn single_custom(files: Seq<SourceFileIndexEntry>, folder: Seq<char>) -> Option<RefView>
    decreases files.len(),
{
    if files.len() == 0 {
        None
    } else {
        let f = files.last();
        if f.source_kind == AirportFlattenSourceKind::Custom && f.airports@.len() == 1 && opt_chars(
            f.folder_name,
        ) == Some(folder) {
            Some(ref_of(f, f.airports@[0]))
        } else {
            single_custom(files.drop_last(), folder)
        }
    }
}

/// The single-airport custom source of a scenery folder, if there is one.
pub fn single_custom_source_for_folder(files: &Vec<SourceFileIndexEntry>, folder_name: &str) -> (r:
    Option<FlattenSourceRef>)
    ensures
        match single_custom(files@, folder_name@) {
            Some(v) => r matches Some(x) && ref_view(x) == v,
            None => r is None,
        },
{
    let folder = chars_of(folder_name);
    let mut j: usize = files.len();
    assert(files@.subrange(0, j as int) =~= files@);
    while j > 0
        invariant
            0 <= j <= files.len(),
            folder@ == folder_name@,
            single_custom(files@, folder_name@) == single_custom(files@.subrange(0, j as int), folder_name@),
        decreases j,
    {
        let ghost sub = files@.subrange(0, j as int);
        assert(sub.drop_last() =~= files@.subrange(0, j - 1));
        assert(sub.last() == files@[j - 1]);
        let f = &files[j - 1];
        let matches_folder = match &f.folder_name {
            Some(name) => eq_chars(&chars_of(name.as_str()), &folder),
            None => false,
        };
        if f.source_kind == AirportFlattenSourceKind::Custom && f.airports.len() == 1 && matches_folder {
            return Some(ref_from(f, &f.airports[0]));
        }
        j = j - 1;
    }
    None
}

/// A search row as plain values: code, name, has a default source, number
/// of custom sources.
pub type RowView = (Seq<char>, Seq<char>, bool, int);

pub open spec fn row_view(r: AirportFlattenSearchResult) -> RowView {
    (r.icao@, r.airport_name@, r.has_default_source, r.custom_source_count as int)
}

pub open spec fn row_views(v: Seq<AirportFlattenSearchResult>) -> Seq<RowView> {
    v.map_values(|r: AirportFlattenSearchResult| row_view(r))
}

/// The index of the last row with exactly this code.
pub open spec fn find_row(rows: Seq<RowView>, icao: Seq<char>) -> Option<int>
    decreases rows.len(),
{
    if rows.len() == 0 {
        None
    } else if rows.last().0 == icao {
        Some(rows.len() - 1)
    } else {
        find_row(rows.drop_last(), icao)
    }
}

/// A row seeing one more source: it takes the name when it had none, and
/// counts the source by its kind.
pub open spec fn counted_row(r: RowView, name: Seq<char>, kind: AirportFlattenSourceKind) -> RowView {
    (
        r.0,
        if r.1.len() == 0 { name } else { r.1 },
        r.2 || kind == AirportFlattenSourceKind::Default,
        r.3 + if kind == AirportFlattenSourceKind::Custom { 1int } else { 0int },
    )
}

pub open spec fn upsert_row(rows: Seq<RowView>, icao: Seq<char>, name: Seq<char>, kind: AirportFlattenSourceKind) -> Seq<
    RowView,
> {
    match find_row(rows, icao) {
        Some(i) => rows.update(i, counted_row(rows[i], name, kind)),
        None => rows.push(counted_row((icao, name, false, 0), name, kind)),
    }
}

proof fn lemma_find_row(rows: Seq<RowView>, icao: Seq<char>)
    ensures
        find_row(rows, icao) matches Some(i) ==> 0 <= i < rows.len() && rows[i].0 == icao,
    decreases rows.len(),
{
    if rows.len() > 0 {
        lemma_find_row(rows.drop_last(), icao);
    }
}

fn find_row_exec(rows: &Vec<AirportFlattenSearchResult>, icao: &[char]) -> (r: Option<usize>)
    ensures
        match r {
            Some(i) => find_row(row_views(rows@), icao@) == Some(i as int),
            None => find_row(row_views(rows@), icao@) is None,
        },
{
    let ghost all = row_views(rows@);
    let mut j: usize = rows.len();
    assert(all.subrange(0, j as int) =~= all);
    while j > 0
        invariant
            0 <= j <= rows.len(),
            all == row_views(rows@),
            find_row(all, icao@) == find_row(all.subrange(0, j as int), icao@),
        decreases j,
    {
        let ghost sub = all.subrange(0, j as int);
        assert(sub.last() == row_view(rows@[j - 1]));
        assert(sub.drop_last() =~= all.subrange(0, j - 1));
        if eq_chars(&chars_of(rows[j - 1].icao.as_str()), icao) {
            return Some(j - 1);
        }
        j = j - 1;
    }
    None
}

/// Counts one more source of an airport in the search rows: a new row for
/// a new code (named after this source), else the row of the code takes
/// the name if it had none; a default source marks the row, a custom one
/// adds to its count.
pub fn upsert_search_entry(
    rows: &mut Vec<AirportFlattenSearchResult>,
    icao: String,
    airport_name: String,
    source_kind: AirportFlattenSourceKind,
)
    requires
        forall|i: int| 0 <= i < old(rows)@.len() ==> (#[trigger] old(rows)@[i]).custom_source_count < u32::MAX,
    ensures
        row_views(final(rows)@) == upsert_row(row_views(old(rows)@), icao@, airport_name@, source_kind),
{
    let ghost before = row_views(rows@);
    let code = chars_of(icao.as_str());
    proof {
        lemma_find_row(before, icao@);
    }
    match find_row_exec(rows, &code) {
        Some(k) => {
            let old_row = &rows[k];
            assert(row_view(*old_row) == before[k as int]);
            let name = if old_row.airport_name.as_str().as_bytes().len() == 0 {
                airport_name
            } else {
                string_of(&chars_of(old_row.airport_name.as_str()))
            };
            proof {
                crate::text::lemma_encode_utf8_empty(old_row.airport_name@);
            }
            let row = AirportFlattenSearchResult {
                icao,
                airport_name: name,
                has_default_source: old_row.has_default_source || source_kind
                    == AirportFlattenSourceKind::Default,
                custom_source_count: if source_kind == AirportFlattenSourceKind::Custom {
                    old_row.custom_source_count + 1
                } else {
                    old_row.custom_source_count
                },
            };
            assert(row_view(row) == counted_row(before[k as int], airport_name@, source_kind));
            rows.set(k, row);
            assert(row_views(rows@) =~= before.update(k as int, row_view(row)));
        },
        None => {
            let row = AirportFlattenSearchResult {
                icao,
                airport_name,
                has_default_source: source_kind == AirportFlattenSourceKind::Default,
                custom_source_count: if source_kind == AirportFlattenSourceKind::Custom {
                    1
                } else {
                    0
                },
            };
            rows.push(row);
            assert(row_views(rows@) =~= before.push(row_view(row)));
        },
    }
}


pub open spec fn rows_after_records(
    rows: Seq<RowView>,
    kind: AirportFlattenSourceKind,
    recs: Seq<CachedAirportRecord>,
) -> Seq<RowView>
    decreases recs.len(),
{
    if recs.len() == 0 {
        rows
    } else {
        upsert_row(rows_after_records(rows, kind, recs.drop_last()), recs.last().icao@, recs.last().airport_name@, kind)
    }
}

/// The search rows of the files before sorting: one per code, in the order
/// the codes are first seen.
pub open spec fn rows_after_files(files: Seq<SourceFileIndexEntry>) -> Seq<RowView>
    decreases files.len(),
{
    if files.len() == 0 {
        Seq::empty()
    } else {
        rows_after_records(rows_after_files(files.drop_last()), files.last().source_kind, files.last().airports@)
    }
}

pub open spec fn row_before(a: RowView, b: RowView) -> bool {
    seq_less(a.0, b.0)
}

/// The search rows of the files, sorted by code.
pub open spec fn search_rows_for(files: Seq<SourceFileIndexEntry>) -> Seq<RowView> {
    sort_ordered(rows_after_files(files), |a: RowView, b: RowView| row_before(a, b))
}

/// The number of airport records over all files.
pub open spec fn total_records(files: Seq<SourceFileIndexEntry>) -> int
    decreases files.len(),
{
    if files.len() == 0 {
        0
    } else {
        total_records(files.drop_last()) + files.last().airports@.len()
    }
}

proof fn lemma_total_records_nonneg(files: Seq<SourceFileIndexEntry>)
    ensures
        total_records(files) >= 0,
    decreases files.len(),
{
    if files.len() > 0 {
        lemma_total_records_nonneg(files.drop_last());
    }
}

proof fn lemma_total_records_prefix(files: Seq<SourceFileIndexEntry>, k: int)
    requires
        0 <= k <= files.len(),
    ensures
        total_records(files.subrange(0, k)) <= total_records(files),
    decreases files.len(),
{
    if k < files.len() {
        lemma_total_records_prefix(files.drop_last(), k);
        assert(files.drop_last().subrange(0, k) =~= files.subrange(0, k));
    } else {
        assert(files.subrange(0, k) =~= files);
    }
}

/// The index of flatten targets: the files, and their search rows.
#[derive(Debug, Clone)]
pub struct AirportFlattenIndex {
    pub source_files: Vec<SourceFileIndexEntry>,
    pub search_rows: Vec<AirportFlattenSearchResult>,
}

fn sort_rows_by_icao(v: Vec<AirportFlattenSearchResult>) -> (r: Vec<AirportFlattenSearchResult>)
    ensures
        row_views(r@) == sort_ordered(row_views(v@), |a: RowView, b: RowView| row_before(a, b)),
{
    let ghost f = |a: RowView, b: RowView| row_before(a, b);
    let ghost m = row_views(v@);
    let n = v.len();
    let mut rest = v;
    let mut out: Vec<AirportFlattenSearchResult> = Vec::new();
    assert(m.subrange(0, 0) =~= Seq::<RowView>::empty());
    assert(row_views(rest@) =~= m.subrange(0, n as int));
    assert(row_views(out@) =~= Seq::<RowView>::empty());
    while rest.len() > 0
        invariant
            rest.len() <= n,
            n == m.len(),
            f == (|a: RowView, b: RowView| row_before(a, b)),
            row_views(rest@) == m.subrange((n - rest.len()) as int, n as int),
            row_views(out@) == sort_ordered(m.subrange(0, (n - rest.len()) as int), f),
        decreases rest.len(),
    {
        let ghost k = (n - rest.len()) as int;
        let ghost rv = row_views(rest@);
        let x = rest.remove(0);
        assert(row_view(x) == rv[0]);
        assert(m[k] == rv[0]);
        assert(row_views(rest@) =~= rv.drop_first());
        assert(m.subrange(k, n as int).drop_first() =~= m.subrange(k + 1, n as int));
        assert(m.subrange(0, k + 1).drop_last() =~= m.subrange(0, k));
        assert(m.subrange(0, k + 1).last() == m[k]);
        let ghost sv = row_views(out@);
        let xc = chars_of(x.icao.as_str());
        let mut p: usize = out.len();
        while p > 0 && chars_less(&xc, &chars_of(out[p - 1].icao.as_str()))
            invariant
                0 <= p <= out.len(),
                sv == row_views(out@),
                xc@ == x.icao@,
                forall|q: int| p <= q < sv.len() ==> row_before(row_view(x), #[trigger] sv[q]),
            decreases p,
        {
            assert(sv[p - 1] == row_view(out@[p - 1]));
            p = p - 1;
        }
        proof {
            if p > 0 {
                assert(sv[p - 1] == row_view(out@[p - 1]));
            }
            assert forall|q: int| p <= q < sv.len() implies f(row_view(x), #[trigger] sv[q]) by {}
            lemma_insert_ordered_at(sv, row_view(x), f, p as int);
        }
        out.insert(p, x);
        assert(row_views(out@) =~= sv.subrange(0, p as int).push(m[k]) + sv.subrange(p as int, sv.len() as int));
    }
    assert(m.subrange(0, n as int) =~= m);
    out
}

/// Builds the index of the files: their search rows, one per airport code,
/// sorted by code. Where an airport can be switched is looked up in the
/// files themselves (`sources_for_icao`, `single_custom_source_for_folder`).
pub fn derive_airport_flatten_index(source_files: Vec<SourceFileIndexEntry>) -> (r: AirportFlattenIndex)
    requires
        total_records(source_files@) <= u32::MAX,
    ensures
        r.source_files@ == source_files@,
        row_views(r.search_rows@) == search_rows_for(source_files@),
{
    let ghost all = source_files@;
    let mut rows: Vec<AirportFlattenSearchResult> = Vec::new();
    let mut i: usize = 0;
    assert(all.subrange(0, 0) =~= Seq::<SourceFileIndexEntry>::empty());
    while i < source_files.len()
        invariant
            0 <= i <= source_files.len(),
            all == source_files@,
            total_records(all) <= u32::MAX,
            row_views(rows@) == rows_after_files(all.subrange(0, i as int)),
            forall|q: int| 0 <= q < rows@.len() ==> (#[trigger] rows@[q]).custom_source_count <= total_records(
                all.subrange(0, i as int),
            ),
        decreases source_files.len() - i,
    {
        let f = &source_files[i];
        let ghost base = row_views(rows@);
        let ghost done = total_records(all.subrange(0, i as int));
        let ghost subf = all.subrange(0, i + 1);
        assert(subf.drop_last() =~= all.subrange(0, i as int));
        assert(subf.last() == *f);
        proof {
            lemma_total_records_prefix(all, i + 1);
            lemma_total_records_nonneg(all.subrange(0, i as int));
        }
        let mut j: usize = 0;
        assert(f.airports@.subrange(0, 0) =~= Seq::<CachedAirportRecord>::empty());
        while j < f.airports.len()
            invariant
                0 <= j <= f.airports.len(),
                done + f.airports@.len() <= u32::MAX,
                0 <= done,
                row_views(rows@) == rows_after_records(base, f.source_kind, f.airports@.subrange(0, j as int)),
                forall|q: int| 0 <= q < rows@.len() ==> (#[trigger] rows@[q]).custom_source_count <= done + j,
            decreases f.airports.len() - j,
        {
            let a = &f.airports[j];
            let ghost sub = f.airports@.subrange(0, j + 1);
            assert(sub.drop_last() =~= f.airports@.subrange(0, j as int));
            assert(sub.last() == *a);
            let ghost before = rows@;
            upsert_search_entry(
                &mut rows,
                string_of(&chars_of(a.icao.as_str())),
                string_of(&chars_of(a.airport_name.as_str())),
                f.source_kind,
            );
            proof {
                let bv = row_views(before);
                lemma_find_row(bv, a.icao@);
                assert forall|q: int| 0 <= q < rows@.len() implies (#[trigger] rows@[q]).custom_source_count
                    <= done + j + 1 by {
                    let ur = upsert_row(bv, a.icao@, a.airport_name@, f.source_kind);
                    assert(row_views(rows@)[q] == row_view(rows@[q]));
                    assert(ur[q] == row_views(rows@)[q]);
                    if q < before.len() {
                        assert(bv[q] == row_view(before[q]));
                        assert(before[q].custom_source_count <= done + j);
                    }
                    match find_row(bv, a.icao@) {
                        Some(k) => {
                            assert(0 <= k < bv.len());
                            assert(ur == bv.update(k, counted_row(bv[k], a.airport_name@, f.source_kind)));
                            assert(ur.len() == bv.len());
                            assert(row_views(rows@).len() == rows@.len());
                            assert(q < bv.len());
                            if q != k {
                                assert(ur[q] == bv[q]);
                            } else {
                                assert(bv[k] == row_view(before[k]));
                                assert(ur[q].3 <= bv[k].3 + 1);
                                assert(rows@[q].custom_source_count == ur[q].3);
                            }
                        },
                        None => {
                            assert(ur == bv.push(counted_row((a.icao@, a.airport_name@, false, 0), a.airport_name@, f.source_kind)));
                            if q < before.len() {
                                assert(ur[q] == bv[q]);
                            } else {
                                assert(ur[q].3 <= 1);
                            }
                        },
                    }
                }
            }
            j = j + 1;
        }
        assert(f.airports@.subrange(0, f.airports@.len() as int) =~= f.airports@);
        i = i + 1;
    }
    assert(all.subrange(0, all.len() as int) =~= all);
    let search_rows = sort_rows_by_icao(rows);
    AirportFlattenIndex { source_files, search_rows }
}


pub open spec fn source_paths(files: Seq<SourceFileIndexEntry>) -> Seq<Seq<char>> {
    files.map_values(|f: SourceFileIndexEntry| f.source_path@)
}

/// The index of the (last) file with this path.
pub open spec fn path_index(paths: Seq<Seq<char>>, path: Seq<char>) -> Option<int>
    decreases paths.len(),
{
    if paths.len() == 0 {
        None
    } else if paths.last() == path {
        Some(paths.len() - 1)
    } else {
        path_index(paths.drop_last(), path)
    }
}

/// The index of the first record of the airport (codes compared without
/// regard to ASCII case).
pub open spec fn first_record_match(rs: Seq<RecordView>, icao: Seq<char>) -> Option<int>
    decreases rs.len(),
{
    if rs.len() == 0 {
        None
    } else if eq_ignore_ascii_case(rs[0].0, icao) {
        Some(0)
    } else {
        match first_record_match(rs.drop_first(), icao) {
            Some(i) => Some(i + 1),
            None => None,
        }
    }
}

/// The record of the airport in the file with this path.
pub open spec fn cached_record(files: Seq<SourceFileIndexEntry>, path: Seq<char>, icao: Seq<char>) -> Option<
    RecordView,
> {
    match path_index(source_paths(files), path) {
        Some(i) => {
            let rs = record_views(files[i].airports@);
            match first_record_match(rs, icao) {
                Some(k) => Some(rs[k]),
                None => None,
            }
        },
        None => None,
    }
}

pub proof fn lemma_path_index(paths: Seq<Seq<char>>, path: Seq<char>)
    ensures
        path_index(paths, path) matches Some(i) ==> 0 <= i < paths.len() && paths[i] == path,
    decreases paths.len(),
{
    if paths.len() > 0 {
        lemma_path_index(paths.drop_last(), path);
    }
}

proof fn lemma_first_record_match(rs: Seq<RecordView>, icao: Seq<char>)
    ensures
        first_record_match(rs, icao) matches Some(k) ==> 0 <= k < rs.len() && eq_ignore_ascii_case(rs[k].0, icao),
        first_record_match(rs, icao) is None <==> forall|k: int| 0 <= k < rs.len() ==> !eq_ignore_ascii_case(
            (#[trigger] rs[k]).0,
            icao,
        ),
    decreases rs.len(),
{
    if rs.len() > 0 {
        let t = rs.drop_first();
        lemma_first_record_match(t, icao);
        if !eq_ignore_ascii_case(rs[0].0, icao) && first_record_match(t, icao) is Some {
            let k = first_record_match(t, icao)->0;
            assert(rs[k + 1] == t[k]);
        }
        if first_record_match(rs, icao) is None {
            assert forall|k: int| 0 <= k < rs.len() implies !eq_ignore_ascii_case((#[trigger] rs[k]).0, icao) by {
                if k > 0 {
                    assert(rs[k] == t[k - 1]);
                }
            }
        }
        if forall|k: int| 0 <= k < rs.len() ==> !eq_ignore_ascii_case((#[trigger] rs[k]).0, icao) {
            assert forall|k: int| 0 <= k < t.len() implies !eq_ignore_ascii_case((#[trigger] t[k]).0, icao) by {
                assert(t[k] == rs[k + 1]);
            }
        }
    }
}

fn path_index_exec(files: &Vec<SourceFileIndexEntry>, path: &[char]) -> (r: Option<usize>)
    ensures
        match r {
            Some(i) => path_index(source_paths(files@), path@) == Some(i as int),
            None => path_index(source_paths(files@), path@) is None,
        },
{
    let ghost all = source_paths(files@);
    let mut j: usize = files.len();
    assert(all.subrange(0, j as int) =~= all);
    while j > 0
        invariant
            0 <= j <= files.len(),
            all == source_paths(files@),
            path_index(all, path@) == path_index(all.subrange(0, j as int), path@),
        decreases j,
    {
        let ghost sub = all.subrange(0, j as int);
        assert(sub.last() == files@[j - 1].source_path@);
        assert(sub.drop_last() =~= all.subrange(0, j - 1));
        if eq_chars(&chars_of(files[j - 1].source_path.as_str()), path) {
            return Some(j - 1);
        }
        j = j - 1;
    }
    None
}

fn copy_record(a: &CachedAirportRecord) -> (r: CachedAirportRecord)
    ensures
        record_view(r) == record_view(*a),
{
    CachedAirportRecord {
        icao: string_of(&chars_of(a.icao.as_str())),
        airport_name: string_of(&chars_of(a.airport_name.as_str())),
        flattened: a.flattened,
        byte_start: a.byte_start,
        byte_end: a.byte_end,
    }
}

/// The record of the airport in the indexed file with this path.
pub fn cached_airport_for(files: &Vec<SourceFileIndexEntry>, source_path: &str, icao: &str) -> (r: Option<
    CachedAirportRecord,
>)
    ensures
        match cached_record(files@, source_path@, icao@) {
            Some(v) => r matches Some(x) && record_view(x) == v,
            None => r is None,
        },
{
    let path = chars_of(source_path);
    let code = chars_of(icao);
    proof {
        lemma_path_index(source_paths(files@), source_path@);
    }
    match path_index_exec(files, &path) {
        None => None,
        Some(i) => {
            let airports = &files[i].airports;
            let ghost rs = record_views(airports@);
            let mut k: usize = 0;
            assert(rs.subrange(0, rs.len() as int) =~= rs);
            while k < airports.len()
                invariant
                    0 <= k <= airports.len(),
                    rs == record_views(airports@),
                    airports@ == files@[i as int].airports@,
                    path_index(source_paths(files@), source_path@) == Some(i as int),
                    code@ == icao@,
                    first_record_match(rs, icao@) == (match first_record_match(
                        rs.subrange(k as int, rs.len() as int),
                        icao@,
                    ) {
                        Some(q) => Some(q + k),
                        None => None,
                    }),
                decreases airports.len() - k,
            {
                let ghost rest = rs.subrange(k as int, rs.len() as int);
                assert(rest[0] == record_view(airports@[k as int]));
                assert(rest.drop_first() =~= rs.subrange(k + 1, rs.len() as int));
                if eq_ignore_ascii_case_exec(&chars_of(airports[k].icao.as_str()), &code) {
                    assert(first_record_match(rest, icao@) == Some(0int));
                    assert(rs[k as int] == record_view(airports@[k as int]));
                    assert(airports@ == files@[i as int].airports@);
                    return Some(copy_record(&airports[k]));
                }
                k = k + 1;
            }
            None
        },
    }
}

/// Whether the airport is flattened in the indexed file with this path,
/// when the file has it.
pub fn current_flattened_for(files: &Vec<SourceFileIndexEntry>, source_path: &str, icao: &str) -> (r: Option<
    bool,
>)
    ensures
        r == (match cached_record(files@, source_path@, icao@) {
            Some(v) => Some(v.2),
            None => None,
        }),
{
    match cached_airport_for(files, source_path, icao) {
        Some(a) => Some(a.flattened),
        None => None,
    }
}

/// The index after the block of `icao` in the file at `path` was rewritten:
/// that file's records are brought up to date (and its stamp renewed when a
/// new one is given); every other file is as it was.
pub open spec fn index_rewritten(
    before: Seq<SourceFileIndexEntry>,
    after: Seq<SourceFileIndexEntry>,
    path: Seq<char>,
    icao: Seq<char>,
    flattened: bool,
    name: Seq<char>,
    delta: int,
) -> bool {
    &&& after.len() == before.len()
    &&& match path_index(source_paths(before), path) {
        Some(i) => {
            &&& forall|j: int| 0 <= j < before.len() && j != i ==> #[trigger] after[j] == before[j]
            &&& after[i].source_kind == before[i].source_kind
            &&& after[i].source_label@ == before[i].source_label@
            &&& after[i].source_path@ == before[i].source_path@
            &&& opt_chars(after[i].folder_name) == opt_chars(before[i].folder_name)
            &&& record_views(after[i].airports@) == rewritten_records(
                record_views(before[i].airports@),
                icao,
                flattened,
                name,
                delta,
            )
        },
        None => after == before,
    }
}

/// Brings the index up to date after the block of `icao` in the file at
/// `source_path` was rewritten with the new flatten state and name and
/// changed size by `block_delta` bytes; `new_stamp` is the file's stamp
/// after the write, when it could be read.
pub fn update_cached_flatten_state(
    files: &mut Vec<SourceFileIndexEntry>,
    icao: &str,
    source_path: &str,
    flattened: bool,
    airport_name: &str,
    block_delta: i64,
    new_stamp: Option<FileStamp>,
)
    ensures
        index_rewritten(old(files)@, final(files)@, source_path@, icao@, flattened, airport_name@, block_delta as int),
        match path_index(source_paths(old(files)@), source_path@) {
            Some(i) => match new_stamp {
                Some(st) => final(files)@[i].stamp == st,
                None => final(files)@[i].stamp == old(files)@[i].stamp,
            },
            None => true,
        },
{
    let path = chars_of(source_path);
    proof {
        lemma_path_index(source_paths(files@), source_path@);
    }
    match path_index_exec(files, &path) {
        None => {},
        Some(i) => {
            let ghost before = files@;
            let mut f = files.remove(i);
            assert(f == before[i as int]);
            apply_block_rewrite(&mut f.airports, icao, flattened, airport_name, block_delta);
            match new_stamp {
                Some(st) => {
                    f.stamp = st;
                },
                None => {},
            }
            files.insert(i, f);
            assert(files@ =~= before.update(i as int, f));
        },
    }
}

/// Reading the index after a switch gives the switch back: the airport is
/// found in the file exactly when it was found before, and then with the
/// new flatten state and name.
pub proof fn law_switch_then_read(
    before: Seq<SourceFileIndexEntry>,
    after: Seq<SourceFileIndexEntry>,
    path: Seq<char>,
    icao: Seq<char>,
    flattened: bool,
    name: Seq<char>,
    delta: int,
)
    requires
        index_rewritten(before, after, path, icao, flattened, name, delta),
    ensures
        cached_record(after, path, icao) is Some <==> cached_record(before, path, icao) is Some,
        cached_record(after, path, icao) matches Some(r) ==> r.2 == flattened && r.1 == name,
{
    lemma_path_index(source_paths(before), path);
    match path_index(source_paths(before), path) {
        None => {
            assert(after == before);
        },
        Some(i) => {
            assert(source_paths(after) =~= source_paths(before)) by {
                assert forall|j: int| 0 <= j < after.len() implies #[trigger] source_paths(after)[j]
                    == source_paths(before)[j] by {
                    if j != i {
                        assert(after[j] == before[j]);
                    }
                }
            }
            let rs = record_views(before[i].airports@);
            let e = crate::apt_index::last_match_end(rs, icao);
            let m = rs.map_values(
                |r: RecordView|
                    crate::apt_index::shifted_record(
                        crate::apt_index::rewritten_record(r, icao, flattened, name, delta),
                        e,
                        delta,
                    ),
            );
            let f = |a: RecordView, b: RecordView| crate::apt_index::start_before(a, b);
            let out = record_views(after[i].airports@);
            assert(out == sort_ordered(m, f));
            crate::apt_index::lemma_sort_ordered_contains(m, f);
            lemma_first_record_match(rs, icao);
            lemma_first_record_match(out, icao);
            assert forall|k: int| 0 <= k < m.len() implies eq_ignore_ascii_case((#[trigger] m[k]).0, icao)
                == eq_ignore_ascii_case(rs[k].0, icao) && (eq_ignore_ascii_case(m[k].0, icao) ==> m[k].2
                == flattened && m[k].1 == name) by {}
            if first_record_match(rs, icao) is Some {
                let k = first_record_match(rs, icao)->0;
                assert(m.contains(m[k]));
                assert(out.contains(m[k]));
                let q = choose|q: int| 0 <= q < out.len() && out[q] == m[k];
                assert(eq_ignore_ascii_case(out[q].0, icao));
            }
            if first_record_match(out, icao) is Some {
                let q = first_record_match(out, icao)->0;
                assert(out.contains(out[q]));
                assert(m.contains(out[q]));
                let k = choose|k: int| 0 <= k < m.len() && m[k] == out[q];
                assert(eq_ignore_ascii_case(rs[k].0, icao));
            }
        },
    }
}


/// A request to switch the flatten row of an airport.
#[derive(Debug, Clone)]
pub struct SetAirportFlattenRequest {
    pub xplane_path: String,
    pub icao: String,
    pub source_kind: AirportFlattenSourceKind,
    pub source_path: Option<String>,
    pub folder_name: Option<String>,
    pub enabled: bool,
}

/// The airport code of a request: trimmed and upper-cased.
pub open spec fn normalized_icao(icao: Seq<char>) -> Seq<char> {
    uppercase(trim(icao))
}

/// The first source with this path.
pub open spec fn first_with_path(refs: Seq<RefView>, path: Seq<char>) -> Option<RefView>
    decreases refs.len(),
{
    if refs.len() == 0 {
        None
    } else if refs[0].3 == path {
        Some(refs[0])
    } else {
        first_with_path(refs.drop_first(), path)
    }
}

/// The first source in the global airports.
pub open spec fn first_default(refs: Seq<RefView>) -> Option<RefView>
    decreases refs.len(),
{
    if refs.len() == 0 {
        None
    } else if refs[0].1 == AirportFlattenSourceKind::Default {
        Some(refs[0])
    } else {
        first_default(refs.drop_first())
    }
}

pub open spec fn folder_required_message() -> Seq<char> {
    "folderName is required for custom scenery flattening"@
}

/// Where a switch request is carried out. With a path, the indexed source of
/// the airport at that path (when an index is at hand), else a source made
/// from the request (labelled `Global Airports`, or by its folder, which a
/// custom source must name). Without a path, the airport's first global
/// source, or the single-airport source of the request's folder.
pub open spec fn resolved_source(req: SetAirportFlattenRequest, index: Option<Seq<SourceFileIndexEntry>>) -> Result<
    RefView,
    Seq<char>,
> {
    let icao = normalized_icao(req.icao@);
    if icao.len() == 0 {
        Err("ICAO is required"@)
    } else {
        match req.source_path {
            Some(p) => {
                let cached = match index {
                    Some(files) => first_with_path(sources_for(files, icao), p@),
                    None => None,
                };
                match cached {
                    Some(v) => Ok(v),
                    None => match req.source_kind {
                        AirportFlattenSourceKind::Default => Ok(
                            (
                                icao,
                                AirportFlattenSourceKind::Default,
                                "Global Airports"@,
                                p@,
                                opt_chars(req.folder_name),
                                icao,
                                req.enabled,
                            ),
                        ),
                        AirportFlattenSourceKind::Custom => match req.folder_name {
                            Some(folder) => Ok(
                                (
                                    icao,
                                    AirportFlattenSourceKind::Custom,
                                    folder@,
                                    p@,
                                    Some(folder@),
                                    icao,
                                    req.enabled,
                                ),
                            ),
                            None => Err(folder_required_message()),
                        },
                    },
                }
            },
            None => match index {
                None => Err("Airport flatten index is unavailable"@),
                Some(files) => match req.source_kind {
                    AirportFlattenSourceKind::Default => match first_default(sources_for(files, icao)) {
                        Some(v) => Ok(v),
                        None => Err("Default airport source not found for "@ + icao),
                    },
                    AirportFlattenSourceKind::Custom => match req.folder_name {
                        None => Err(folder_required_message()),
                        Some(folder) => match single_custom(files, folder@) {
                            Some(v) => Ok(v),
                            None => Err("Custom airport source not found for "@ + folder@),
                        },
                    },
                },
            },
        }
    }
}

fn find_with_path(refs: &Vec<FlattenSourceRef>, path: &[char]) -> (r: Option<usize>)
    ensures
        match first_with_path(ref_views(refs@), path@) {
            Some(v) => r matches Some(i) && i < refs@.len() && ref_view(refs@[i as int]) == v,
            None => r is None,
        },
{
    let ghost all = ref_views(refs@);
    let mut k: usize = 0;
    assert(all.subrange(0, all.len() as int) =~= all);
    while k < refs.len()
        invariant
            0 <= k <= refs.len(),
            all == ref_views(refs@),
            first_with_path(all, path@) == first_with_path(all.subrange(k as int, all.len() as int), path@),
        decreases refs.len() - k,
    {
        let ghost rest = all.subrange(k as int, all.len() as int);
        assert(rest[0] == ref_view(refs@[k as int]));
        assert(rest.drop_first() =~= all.subrange(k + 1, all.len() as int));
        if eq_chars(&chars_of(refs[k].source_path.as_str()), path) {
            return Some(k);
        }
        k = k + 1;
    }
    None
}

fn find_default(refs: &Vec<FlattenSourceRef>) -> (r: Option<usize>)
    ensures
        match first_default(ref_views(refs@)) {
            Some(v) => r matches Some(i) && i < refs@.len() && ref_view(refs@[i as int]) == v,
            None => r is None,
        },
{
    let ghost all = ref_views(refs@);
    let mut k: usize = 0;
    assert(all.subrange(0, all.len() as int) =~= all);
    while k < refs.len()
        invariant
            0 <= k <= refs.len(),
            all == ref_views(refs@),
            first_default(all) == first_default(all.subrange(k as int, all.len() as int)),
        decreases refs.len() - k,
    {
        let ghost rest = all.subrange(k as int, all.len() as int);
        assert(rest[0] == ref_view(refs@[k as int]));
        assert(rest.drop_first() =~= all.subrange(k + 1, all.len() as int));
        if refs[k].source_kind == AirportFlattenSourceKind::Default {
            return Some(k);
        }
        k = k + 1;
    }
    None
}

fn normalize_request_icao(icao: &str) -> (r: Vec<char>)
    ensures
        r@ == normalized_icao(icao@),
{
    to_uppercase_chars(&trim_vec(&chars_of(icao)))
}

/// Finds where a switch request is carried out, given the index when one is
/// at hand.
pub fn resolve_flatten_source(request: &SetAirportFlattenRequest, index: Option<&Vec<SourceFileIndexEntry>>) -> (r:
    Result<FlattenSourceRef, String>)
    ensures
        match resolved_source(
            *request,
            match index {
                Some(files) => Some(files@),
                None => None,
            },
        ) {
            Ok(v) => r matches Ok(x) && ref_view(x) == v,
            Err(e) => r matches Err(x) && x@ == e,
        },
{
    let icao = normalize_request_icao(request.icao.as_str());
    if icao.len() == 0 {
        return Err(string_of(&chars_of("ICAO is required")));
    }
    let icao_s = string_of(&icao);
    match &request.source_path {
        Some(p) => {
            let cached: Option<FlattenSourceRef> = match index {
                Some(files) => {
                    let refs = sources_for_icao(files, icao_s.as_str());
                    match find_with_path(&refs, &chars_of(p.as_str())) {
                        Some(k) => Some(copy_ref(&refs[k])),
                        None => None,
                    }
                },
                None => None,
            };
            match cached {
                Some(v) => Ok(v),
                None => match request.source_kind {
                    AirportFlattenSourceKind::Default => Ok(
                        FlattenSourceRef {
                            icao: string_of(&icao),
                            source_kind: AirportFlattenSourceKind::Default,
                            source_label: string_of(&chars_of("Global Airports")),
                            source_path: string_of(&chars_of(p.as_str())),
                            folder_name: copy_opt_string(&request.folder_name),
                            airport_name: string_of(&icao),
                            flattened: request.enabled,
                        },
                    ),
                    AirportFlattenSourceKind::Custom => match &request.folder_name {
                        Some(folder) => Ok(
                            FlattenSourceRef {
                                icao: string_of(&icao),
                                source_kind: AirportFlattenSourceKind::Custom,
                                source_label: string_of(&chars_of(folder.as_str())),
                                source_path: string_of(&chars_of(p.as_str())),
                                folder_name: Some(string_of(&chars_of(folder.as_str()))),
                                airport_name: string_of(&icao),
                                flattened: request.enabled,
                            },
                        ),
                        None => Err(string_of(&chars_of("folderName is required for custom scenery flattening"))),
                    },
                },
            }
        },
        None => match index {
            None => Err(string_of(&chars_of("Airport flatten index is unavailable"))),
            Some(files) => match request.source_kind {
                AirportFlattenSourceKind::Default => {
                    let refs = sources_for_icao(files, icao_s.as_str());
                    match find_default(&refs) {
                        Some(k) => Ok(copy_ref(&refs[k])),
                        None => {
                            let mut msg = chars_of("Default airport source not found for ");
                            push_all(&mut msg, &icao);
                            Err(string_of(&msg))
                        },
                    }
                },
                AirportFlattenSourceKind::Custom => match &request.folder_name {
                    None => Err(string_of(&chars_of("folderName is required for custom scenery flattening"))),
                    Some(folder) => match single_custom_source_for_folder(files, folder.as_str()) {
                        Some(v) => Ok(v),
                        None => {
                            let mut msg = chars_of("Custom airport source not found for ");
                            push_all(&mut msg, &chars_of(folder.as_str()));
                            Err(string_of(&msg))
                        },
                    },
                },
            },
        },
    }
}

/// The target a source offers for an airport code.
pub fn build_target_from_source_ref(source_ref: &FlattenSourceRef, icao: &str) -> (r: Result<
    AirportFlattenTarget,
    String,
>)
    ensures
        r matches Ok(t) && t.icao@ == icao@ && t.airport_name@ == source_ref.airport_name@ && t.source_kind
            == source_ref.source_kind && t.source_label@ == source_ref.source_label@ && t.source_path@
            == source_ref.source_path@ && opt_chars(t.folder_name) == opt_chars(source_ref.folder_name)
            && t.flattened == source_ref.flattened,
{
    Ok(
        AirportFlattenTarget {
            icao: string_of(&chars_of(icao)),
            airport_name: string_of(&chars_of(source_ref.airport_name.as_str())),
            source_kind: source_ref.source_kind,
            source_label: string_of(&chars_of(source_ref.source_label.as_str())),
            source_path: string_of(&chars_of(source_ref.source_path.as_str())),
            folder_name: copy_opt_string(&source_ref.folder_name),
            flattened: source_ref.flattened,
        },
    )
}

/// The target after a switch: the source's place, the airport's name as
/// the file now gives it, and the requested state.
pub fn switched_target(source_ref: &FlattenSourceRef, icao: &str, airport_name: &str, enabled: bool) -> (r:
    AirportFlattenTarget)
    ensures
        r.icao@ == icao@,
        r.airport_name@ == airport_name@,
        r.source_kind == source_ref.source_kind,
        r.source_label@ == source_ref.source_label@,
        r.source_path@ == source_ref.source_path@,
        opt_chars(r.folder_name) == opt_chars(source_ref.folder_name),
        r.flattened == enabled,
{
    AirportFlattenTarget {
        icao: string_of(&chars_of(icao)),
        airport_name: string_of(&chars_of(airport_name)),
        source_kind: source_ref.source_kind,
        source_label: string_of(&chars_of(source_ref.source_label.as_str())),
        source_path: string_of(&chars_of(source_ref.source_path.as_str())),
        folder_name: copy_opt_string(&source_ref.folder_name),
        flattened: enabled,
    }
}


/// The targets of an airport: one per source, sorted by label; an empty
/// code is an error.
pub fn airport_flatten_targets(files: &Vec<SourceFileIndexEntry>, icao: &str) -> (r: Result<
    Vec<AirportFlattenTarget>,
    String,
>)
    ensures
        ({
            let code = normalized_icao(icao@);
            if code.len() == 0 {
                r matches Err(e) && e@ == "ICAO is required"@
            } else {
                r matches Ok(ts) && ts@.len() == sources_for(files@, code).len() && forall|i: int|
                    0 <= i < ts@.len() ==> {
                        let v = #[trigger] sources_for(files@, code)[i];
                        let t = ts@[i];
                        &&& t.icao@ == code
                        &&& t.airport_name@ == v.5
                        &&& t.source_kind == v.1
                        &&& t.source_label@ == v.2
                        &&& t.source_path@ == v.3
                        &&& opt_chars(t.folder_name) == v.4
                        &&& t.flattened == v.6
                    }
            }
        }),
{
    let code = normalize_request_icao(icao);
    if code.len() == 0 {
        return Err(string_of(&chars_of("ICAO is required")));
    }
    let code_s = string_of(&code);
    let refs = sources_for_icao(files, code_s.as_str());
    let ghost rv = ref_views(refs@);
    let mut out: Vec<AirportFlattenTarget> = Vec::new();
    let mut i: usize = 0;
    while i < refs.len()
        invariant
            0 <= i <= refs.len(),
            rv == ref_views(refs@),
            rv == sources_for(files@, code@),
            code_s@ == code@,
            out@.len() == i,
            forall|q: int| 0 <= q < i ==> {
                let v = #[trigger] rv[q];
                let t = out@[q];
                &&& t.icao@ == code@
                &&& t.airport_name@ == v.5
                &&& t.source_kind == v.1
                &&& t.source_label@ == v.2
                &&& t.source_path@ == v.3
                &&& opt_chars(t.folder_name) == v.4
                &&& t.flattened == v.6
            },
        decreases refs.len() - i,
    {
        assert(rv[i as int] == ref_view(refs@[i as int]));
        match build_target_from_source_ref(&refs[i], code_s.as_str()) {
            Ok(t) => {
                out.push(t);
            },
            Err(_) => {},
        }
        i = i + 1;
    }
    Ok(out)
}


/// A row is found by a query when its code holds the upper-cased query or
/// its lower-cased name holds the lower-cased query.
pub open spec fn row_found(r: RowView, upper: Seq<char>, lower: Seq<char>) -> bool {
    contains(r.0, upper) || contains(lowercase(r.1), lower)
}

pub open spec fn found_rows(rows: Seq<RowView>, upper: Seq<char>, lower: Seq<char>) -> Seq<RowView>
    decreases rows.len(),
{
    if rows.len() == 0 {
        Seq::empty()
    } else {
        let prev = found_rows(rows.drop_last(), upper, lower);
        if row_found(rows.last(), upper, lower) {
            prev.push(rows.last())
        } else {
            prev
        }
    }
}

/// Search order: by rank, then by the byte lengths of code and name, then
/// by code.
pub open spec fn search_less(a: RowView, b: RowView, upper: Seq<char>) -> bool {
    let ra = search_rank(a.0, a.1, upper);
    let rb = search_rank(b.0, b.1, upper);
    let ia = vstd::utf8::encode_utf8(a.0).len();
    let ib = vstd::utf8::encode_utf8(b.0).len();
    let na = vstd::utf8::encode_utf8(a.1).len();
    let nb = vstd::utf8::encode_utf8(b.1).len();
    ||| ra < rb
    ||| (ra == rb && ia < ib)
    ||| (ra == rb && ia == ib && na < nb)
    ||| (ra == rb && ia == ib && na == nb && seq_less(a.0, b.0))
}

/// How many results a search gives: 20 unless asked, between 1 and 100.
pub open spec fn search_limit(limit: Option<usize>) -> int {
    let l = match limit {
        Some(n) => n as int,
        None => 20,
    };
    if l < 1 {
        1
    } else if l > 100 {
        100
    } else {
        l
    }
}

/// The result of a search over the rows: nothing for a blank query, else
/// the rows found, in search order, at most the limit.
pub open spec fn search_result(rows: Seq<RowView>, query: Seq<char>, limit: Option<usize>) -> Seq<RowView> {
    let q = trim(query);
    if q.len() == 0 {
        Seq::empty()
    } else {
        let upper = uppercase(q);
        let sorted = sort_ordered(
            found_rows(rows, upper, lowercase(q)),
            |a: RowView, b: RowView| search_less(a, b, upper),
        );
        if sorted.len() > search_limit(limit) {
            sorted.take(search_limit(limit))
        } else {
            sorted
        }
    }
}

fn search_less_exec(a: &AirportFlattenSearchResult, b: &AirportFlattenSearchResult, upper: &str) -> (r: bool)
    ensures
        r == search_less(row_view(*a), row_view(*b), upper@),
{
    let ra = search_score(a, upper).0;
    let rb = search_score(b, upper).0;
    let ia = a.icao.as_str().as_bytes().len();
    let ib = b.icao.as_str().as_bytes().len();
    let na = a.airport_name.as_str().as_bytes().len();
    let nb = b.airport_name.as_str().as_bytes().len();
    if ra != rb {
        ra < rb
    } else if ia != ib {
        ia < ib
    } else if na != nb {
        na < nb
    } else {
        chars_less(&chars_of(a.icao.as_str()), &chars_of(b.icao.as_str()))
    }
}

fn copy_row(r: &AirportFlattenSearchResult) -> (c: AirportFlattenSearchResult)
    ensures
        row_view(c) == row_view(*r),
{
    AirportFlattenSearchResult {
        icao: string_of(&chars_of(r.icao.as_str())),
        airport_name: string_of(&chars_of(r.airport_name.as_str())),
        has_default_source: r.has_default_source,
        custom_source_count: r.custom_source_count,
    }
}

/// Searches the rows of the index for a query.
pub fn search_flatten_rows(rows: &Vec<AirportFlattenSearchResult>, query: &str, limit: Option<usize>) -> (r: Vec<
    AirportFlattenSearchResult,
>)
    ensures
        row_views(r@) == search_result(row_views(rows@), query@, limit),
{
    let q = trim_vec(&chars_of(query));
    if q.len() == 0 {
        let out: Vec<AirportFlattenSearchResult> = Vec::new();
        assert(row_views(out@) =~= Seq::<RowView>::empty());
        return out;
    }
    let upper = to_uppercase_chars(&q);
    let lower = to_lowercase_chars(&q);
    let upper_s = string_of(&upper);
    let ghost all = row_views(rows@);
    let mut kept: Vec<AirportFlattenSearchResult> = Vec::new();
    let mut i: usize = 0;
    assert(all.subrange(0, 0) =~= Seq::<RowView>::empty());
    while i < rows.len()
        invariant
            0 <= i <= rows.len(),
            all == row_views(rows@),
            upper@ == uppercase(q@),
            lower@ == lowercase(q@),
            row_views(kept@) == found_rows(all.subrange(0, i as int), upper@, lower@),
        decreases rows.len() - i,
    {
        let ghost sub = all.subrange(0, i + 1);
        assert(sub.drop_last() =~= all.subrange(0, i as int));
        assert(sub.last() == row_view(rows@[i as int]));
        let r = &rows[i];
        let name_lower = to_lowercase_chars(&chars_of(r.airport_name.as_str()));
        let ghost before = row_views(kept@);
        if contains_exec(&chars_of(r.icao.as_str()), &upper) || contains_exec(&name_lower, &lower) {
            kept.push(copy_row(r));
            assert(row_views(kept@) =~= before.push(row_view(*r)));
        }
        i = i + 1;
    }
    assert(all.subrange(0, all.len() as int) =~= all);
    let ghost f = |a: RowView, b: RowView| search_less(a, b, upper@);
    let ghost m = row_views(kept@);
    let n = kept.len();
    let mut rest = kept;
    let mut out: Vec<AirportFlattenSearchResult> = Vec::new();
    assert(m.subrange(0, 0) =~= Seq::<RowView>::empty());
    assert(row_views(rest@) =~= m.subrange(0, n as int));
    assert(row_views(out@) =~= Seq::<RowView>::empty());
    while rest.len() > 0
        invariant
            rest.len() <= n,
            n == m.len(),
            upper_s@ == upper@,
            f == (|a: RowView, b: RowView| search_less(a, b, upper@)),
            row_views(rest@) == m.subrange((n - rest.len()) as int, n as int),
            row_views(out@) == sort_ordered(m.subrange(0, (n - rest.len()) as int), f),
        decreases rest.len(),
    {
        let ghost k = (n - rest.len()) as int;
        let ghost rv = row_views(rest@);
        let x = rest.remove(0);
        assert(row_view(x) == rv[0]);
        assert(m[k] == rv[0]);
        assert(row_views(rest@) =~= rv.drop_first());
        assert(m.subrange(k, n as int).drop_first() =~= m.subrange(k + 1, n as int));
        assert(m.subrange(0, k + 1).drop_last() =~= m.subrange(0, k));
        assert(m.subrange(0, k + 1).last() == m[k]);
        let ghost sv = row_views(out@);
        let mut p: usize = out.len();
        while p > 0 && search_less_exec(&x, &out[p - 1], upper_s.as_str())
            invariant
                0 <= p <= out.len(),
                sv == row_views(out@),
                upper_s@ == upper@,
                forall|q: int| p <= q < sv.len() ==> search_less(row_view(x), #[trigger] sv[q], upper@),
            decreases p,
        {
            assert(sv[p - 1] == row_view(out@[p - 1]));
            p = p - 1;
        }
        proof {
            if p > 0 {
                assert(sv[p - 1] == row_view(out@[p - 1]));
            }
            assert forall|q: int| p <= q < sv.len() implies f(row_view(x), #[trigger] sv[q]) by {}
            lemma_insert_ordered_at(sv, row_view(x), f, p as int);
        }
        out.insert(p, x);
        assert(row_views(out@) =~= sv.subrange(0, p as int).push(m[k]) + sv.subrange(p as int, sv.len() as int));
    }
    assert(m.subrange(0, n as int) =~= m);
    let lim: usize = match limit {
        Some(l) => if l < 1 {
            1
        } else if l > 100 {
            100
        } else {
            l
        },
        None => 20,
    };
    if out.len() > lim {
        let ghost before = row_views(out@);
        out.truncate(lim);
        assert(row_views(out@) =~= before.take(lim as int));
    }
    out
}

} // verus!
