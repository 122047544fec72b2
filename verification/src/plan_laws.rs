//! What the update plan of a Skunk Crafts add-on promises about ignored
//! paths and liveries, what the platform of a plugin is, and how airport
//! search rows are ranked.

use vstd::prelude::*;
use crate::skunk::{
    blacklist_plan, entries_plan, entry_action, law_plan_partitions_whitelist, livery_path,
    EntryAction, LocalEntryState,
};
use crate::manage::plugin_platform_of;
use crate::flatten::search_rank;
use crate::text::{contains, lowercase, occurs_at, starts_with, uppercase};

verus! {

/// A path the plan may download: not ignored, and not a livery unless
/// liveries are wanted.
pub open spec fn downloadable(x: Seq<char>, include_liveries: bool, ignore: Seq<Seq<char>>) -> bool {
    !ignore.contains(x) && (include_liveries || !livery_path(x))
}

/// Every path in the add and replace lists of a plan is downloadable.
proof fn lemma_added_paths_allowed(
    wl: Seq<(Seq<char>, i64)>,
    states: Seq<LocalEntryState>,
    include_liveries: bool,
    ignore: Seq<Seq<char>>,
    once: Seq<Seq<char>>,
)
    ensures
        forall|x: Seq<char>|
            #![trigger entries_plan(wl, states, include_liveries, ignore, once).0.contains(x)]
            #![trigger entries_plan(wl, states, include_liveries, ignore, once).1.contains(x)]
            (entries_plan(wl, states, include_liveries, ignore, once).0.contains(x) || entries_plan(
                wl,
                states,
                include_liveries,
                ignore,
                once,
            ).1.contains(x)) ==> downloadable(x, include_liveries, ignore),
    decreases wl.len(),
{
    let p = entries_plan(wl, states, include_liveries, ignore, once);
    if wl.len() > 0 {
        let d = wl.drop_last();
        lemma_added_paths_allowed(d, states, include_liveries, ignore, once);
        let p0 = entries_plan(d, states, include_liveries, ignore, once);
        let e = wl.last();
        let a = entry_action(e.0, e.1, include_liveries, ignore, once, states[wl.len() - 1]);
        if a == EntryAction::Add || a == EntryAction::Replace {
            assert(downloadable(e.0, include_liveries, ignore));
        }
        assert forall|x: Seq<char>| (p.0.contains(x) || p.1.contains(x)) implies downloadable(
            x,
            include_liveries,
            ignore,
        ) by {
            if p.0.contains(x) {
                let k = choose|k: int| 0 <= k < p.0.len() && p.0[k] == x;
                if a == EntryAction::Add && k == p.0.len() - 1 {
                    assert(x == e.0);
                } else {
                    assert(p0.0[k] == x);
                    assert(p0.0.contains(x));
                }
            } else {
                let k = choose|k: int| 0 <= k < p.1.len() && p.1[k] == x;
                if a == EntryAction::Replace && k == p.1.len() - 1 {
                    assert(x == e.0);
                } else {
                    assert(p0.1[k] == x);
                    assert(p0.1.contains(x));
                }
            }
        }
    }
}

/// An ignored path of the manifest is never added or replaced, whatever is
/// on disk, and every whitelist entry with an ignored path is skipped.
/// Without liveries, no livery path is added or replaced either, and every
/// livery entry is skipped.
pub proof fn law_ignored_and_livery_entries_are_skipped(
    wl: Seq<(Seq<char>, i64)>,
    states: Seq<LocalEntryState>,
    include_liveries: bool,
    ignore: Seq<Seq<char>>,
    once: Seq<Seq<char>>,
)
    ensures
        ({
            let p = entries_plan(wl, states, include_liveries, ignore, once);
            &&& forall|x: Seq<char>| ignore.contains(x) ==> !p.0.contains(x) && !p.1.contains(x)
            &&& forall|i: int| 0 <= i < wl.len() && ignore.contains(#[trigger] wl[i].0) ==> p.2.contains(wl[i].0)
            &&& !include_liveries ==> forall|x: Seq<char>| livery_path(x) ==> !p.0.contains(x) && !p.1.contains(x)
            &&& !include_liveries ==> forall|i: int| 0 <= i < wl.len() && livery_path(#[trigger] wl[i].0) ==> p.2.contains(wl[i].0)
        }),
{
    lemma_added_paths_allowed(wl, states, include_liveries, ignore, once);
    law_plan_partitions_whitelist(wl, states, include_liveries, ignore, once);
    let p = entries_plan(wl, states, include_liveries, ignore, once);
    assert forall|x: Seq<char>| ignore.contains(x) implies !p.0.contains(x) && !p.1.contains(x) by {
        if p.0.contains(x) || p.1.contains(x) {
            assert(downloadable(x, include_liveries, ignore));
        }
    }
    if !include_liveries {
        assert forall|x: Seq<char>| livery_path(x) implies !p.0.contains(x) && !p.1.contains(x) by {
            if p.0.contains(x) || p.1.contains(x) {
                assert(downloadable(x, include_liveries, ignore));
            }
        }
    }
    assert forall|i: int| 0 <= i < wl.len() && ignore.contains(#[trigger] wl[i].0) implies p.2.contains(wl[i].0) by {
        let a = entry_action(wl[i].0, wl[i].1, include_liveries, ignore, once, states[i]);
        assert(a == EntryAction::Skip);
    }
    if !include_liveries {
        assert forall|i: int| 0 <= i < wl.len() && livery_path(#[trigger] wl[i].0) implies p.2.contains(wl[i].0) by {
            let a = entry_action(wl[i].0, wl[i].1, include_liveries, ignore, once, states[i]);
            assert(a == EntryAction::Skip);
        }
    }
}

/// The file on disk has a known CRC32 other than the manifest's.
pub open spec fn crc_differs(st: LocalEntryState, crc: i64) -> bool {
    st.crc32 matches Some(c) && c as i64 != crc
}

/// A whitelist entry that is downloadable ends up as its state on disk
/// asks: missing, it is added; a copy-once entry (negative CRC or listed
/// once) that exists is skipped; a folder is skipped; an existing file is
/// replaced exactly when its CRC32 is known and differs from the
/// manifest's, and skipped otherwise.
pub proof fn law_entry_outcomes(
    wl: Seq<(Seq<char>, i64)>,
    states: Seq<LocalEntryState>,
    include_liveries: bool,
    ignore: Seq<Seq<char>>,
    once: Seq<Seq<char>>,
)
    ensures
        forall|i: int|
            0 <= i < wl.len() && downloadable(#[trigger] wl[i].0, include_liveries, ignore) ==> {
                let p = entries_plan(wl, states, include_liveries, ignore, once);
                let x = wl[i].0;
                let st = states[i];
                let copy_once = wl[i].1 < 0 || once.contains(x);
                &&& (!st.exists ==> p.0.contains(x))
                &&& (st.exists && copy_once ==> p.2.contains(x))
                &&& (st.exists && !copy_once && st.is_dir ==> p.2.contains(x))
                &&& (st.exists && !copy_once && !st.is_dir && crc_differs(st, wl[i].1) ==> p.1.contains(x))
                &&& (st.exists && !copy_once && !st.is_dir && !crc_differs(st, wl[i].1) ==> p.2.contains(x))
            },
{
    law_plan_partitions_whitelist(wl, states, include_liveries, ignore, once);
    assert forall|i: int|
        0 <= i < wl.len() && downloadable(#[trigger] wl[i].0, include_liveries, ignore) implies {
            let p = entries_plan(wl, states, include_liveries, ignore, once);
            let x = wl[i].0;
            let st = states[i];
            let copy_once = wl[i].1 < 0 || once.contains(x);
            &&& (!st.exists ==> p.0.contains(x))
            &&& (st.exists && copy_once ==> p.2.contains(x))
            &&& (st.exists && !copy_once && st.is_dir ==> p.2.contains(x))
            &&& (st.exists && !copy_once && !st.is_dir && crc_differs(st, wl[i].1) ==> p.1.contains(x))
            &&& (st.exists && !copy_once && !st.is_dir && !crc_differs(st, wl[i].1) ==> p.2.contains(x))
        } by {
        let a = entry_action(wl[i].0, wl[i].1, include_liveries, ignore, once, states[i]);
        assert(a == entry_action(wl[i].0, wl[i].1, include_liveries, ignore, once, states[i]));
    }
}

/// A path is deleted exactly when the delete list names it, it exists, the
/// whitelist does not list it, and it is not a livery unless liveries are
/// wanted.
pub proof fn law_deletions(
    bl: Seq<Seq<char>>,
    exists: Seq<bool>,
    wl_paths: Seq<Seq<char>>,
    include_liveries: bool,
)
    requires
        exists.len() == bl.len(),
    ensures
        forall|d: Seq<char>| #[trigger] blacklist_plan(bl, exists, wl_paths, include_liveries).0.contains(d)
            ==> exists|j: int| 0 <= j < bl.len() && #[trigger] bl[j] == d && exists[j] && !wl_paths.contains(d)
                && (include_liveries || !livery_path(d)),
        forall|j: int|
            0 <= j < bl.len() && exists[j] && !wl_paths.contains(#[trigger] bl[j]) && (include_liveries
                || !livery_path(bl[j])) ==> blacklist_plan(bl, exists, wl_paths, include_liveries).0.contains(bl[j]),
    decreases bl.len(),
{
    let p = blacklist_plan(bl, exists, wl_paths, include_liveries);
    if bl.len() > 0 {
        let d0 = bl.drop_last();
        let n = bl.len() - 1;
        law_deletions(d0, exists.subrange(0, n), wl_paths, include_liveries);
        lemma_blacklist_prefix_exists(d0, exists, n, wl_paths, include_liveries);
        let p0 = blacklist_plan(d0, exists, wl_paths, include_liveries);
        let last = bl.last();
        let deleted_last = !wl_paths.contains(last) && (include_liveries || !livery_path(last)) && exists[n];
        assert(p.0 == if deleted_last { p0.0.push(last) } else { p0.0 });
        assert forall|d: Seq<char>| #[trigger] p.0.contains(d) implies exists|j: int| 0 <= j < bl.len() && #[trigger] bl[j] == d
            && exists[j] && !wl_paths.contains(d) && (include_liveries || !livery_path(d)) by {
            let k = choose|k: int| 0 <= k < p.0.len() && p.0[k] == d;
            if deleted_last && k == p.0.len() - 1 {
                assert(bl[n] == d);
            } else {
                assert(p0.0[k] == d);
                assert(p0.0.contains(d));
                let j = choose|j: int| 0 <= j < d0.len() && #[trigger] d0[j] == d && exists.subrange(0, n)[j]
                    && !wl_paths.contains(d) && (include_liveries || !livery_path(d));
                assert(bl[j] == d0[j]);
                assert(exists[j] == exists.subrange(0, n)[j]);
            }
        }
        assert forall|j: int|
            0 <= j < bl.len() && exists[j] && !wl_paths.contains(#[trigger] bl[j]) && (include_liveries
                || !livery_path(bl[j])) implies p.0.contains(bl[j]) by {
            if j == n {
                assert(p.0[p.0.len() - 1] == bl[j]);
            } else {
                assert(d0[j] == bl[j]);
                assert(exists.subrange(0, n)[j] == exists[j]);
                assert(p0.0.contains(d0[j]));
                let k = choose|k: int| 0 <= k < p0.0.len() && p0.0[k] == d0[j];
                assert(p.0[k] == p0.0[k]);
            }
        }
    }
}

/// The deletions of a prefix of the delete list only read the prefix of
/// the existence flags.
proof fn lemma_blacklist_prefix_exists(
    bl: Seq<Seq<char>>,
    exists: Seq<bool>,
    n: int,
    wl_paths: Seq<Seq<char>>,
    include_liveries: bool,
)
    requires
        bl.len() <= n <= exists.len(),
    ensures
        blacklist_plan(bl, exists, wl_paths, include_liveries) == blacklist_plan(
            bl,
            exists.subrange(0, n),
            wl_paths,
            include_liveries,
        ),
    decreases bl.len(),
{
    if bl.len() > 0 {
        lemma_blacklist_prefix_exists(bl.drop_last(), exists, n, wl_paths, include_liveries);
        assert(exists.subrange(0, n)[bl.len() - 1] == exists[bl.len() - 1]);
    }
}

/// Without liveries, no livery path is deleted, whatever the delete list
/// says and whatever exists on disk.
pub proof fn law_liveries_never_deleted_without_liveries(
    bl: Seq<Seq<char>>,
    exists: Seq<bool>,
    wl_paths: Seq<Seq<char>>,
)
    ensures
        forall|d: Seq<char>| #[trigger] blacklist_plan(bl, exists, wl_paths, false).0.contains(d) ==> !livery_path(d),
    decreases bl.len(),
{
    if bl.len() > 0 {
        let d0 = bl.drop_last();
        law_liveries_never_deleted_without_liveries(d0, exists, wl_paths);
        let p0 = blacklist_plan(d0, exists, wl_paths, false);
        let p = blacklist_plan(bl, exists, wl_paths, false);
        assert forall|d: Seq<char>| #[trigger] p.0.contains(d) implies !livery_path(d) by {
            let k = choose|k: int| 0 <= k < p.0.len() && p.0[k] == d;
            if k < p0.0.len() {
                assert(p0.0[k] == p.0[k]);
                assert(p0.0.contains(d));
            } else {
                assert(d == bl.last());
            }
        }
    }
}

/// Some plugin path holds the platform's name, or some platform folder is
/// named for it (`x` or `x_x64`), compared in lower case.
pub open spec fn signals(xpl: Seq<Seq<char>>, dirs: Seq<Seq<char>>, x: Seq<char>) -> bool {
    ||| exists|i: int| 0 <= i < xpl.len() && contains(lowercase(#[trigger] xpl[i]), x)
    ||| exists|i: int| 0 <= i < dirs.len() && (lowercase(#[trigger] dirs[i]) == x || lowercase(dirs[i])
        == x + "_x64"@)
}

/// The platform of a plugin is the one platform it shows signs of (`win`,
/// `mac` or `lin`), `multi` when it shows two or more, and `unknown` when
/// it shows none.
pub proof fn law_plugin_platform(xpl: Seq<Seq<char>>, dirs: Seq<Seq<char>>)
    ensures
        ({
            let w = signals(xpl, dirs, "win"@);
            let m = signals(xpl, dirs, "mac"@);
            let l = signals(xpl, dirs, "lin"@);
            let r = plugin_platform_of(xpl, dirs);
            &&& (w && !m && !l ==> r == "win"@)
            &&& (m && !w && !l ==> r == "mac"@)
            &&& (l && !w && !m ==> r == "lin"@)
            &&& ((w && m) || (w && l) || (m && l) ==> r == "multi"@)
            &&& (!w && !m && !l ==> r == "unknown"@)
        }),
{
    reveal_strlit("win");
    reveal_strlit("mac");
    reveal_strlit("lin");
    reveal_strlit("_x64");
    reveal_strlit("win_x64");
    reveal_strlit("mac_x64");
    reveal_strlit("lin_x64");
    assert("win"@ + "_x64"@ =~= "win_x64"@);
    assert("mac"@ + "_x64"@ =~= "mac_x64"@);
    assert("lin"@ + "_x64"@ =~= "lin_x64"@);
}

/// A search row whose code holds the query somewhere after its start ranks
/// right after exact and prefix matches of the code: before any row whose
/// code does not hold the query, in particular before rows matched by name
/// only. Rows are ranked: exact code, code prefix, code holding the query,
/// name prefix, the rest.
pub proof fn law_search_rank_order(
    icao: Seq<char>,
    name: Seq<char>,
    icao2: Seq<char>,
    name2: Seq<char>,
    query: Seq<char>,
)
    ensures
        icao == query ==> search_rank(icao, name, query) == 0,
        icao != query && starts_with(icao, query) ==> search_rank(icao, name, query) == 1,
        contains(icao, query) && !starts_with(icao, query) ==> search_rank(icao, name, query) == 2,
        !contains(icao, query) && starts_with(uppercase(name), query) ==> search_rank(icao, name, query)
            == 3,
        !contains(icao, query) && !starts_with(uppercase(name), query) ==> search_rank(icao, name, query)
            == 4,
        contains(icao, query) && !contains(icao2, query) ==> search_rank(icao, name, query)
            < search_rank(icao2, name2, query),
{
    if starts_with(icao2, query) {
        assert(occurs_at(icao2, query, 0)) by {
            assert(icao2.subrange(0, query.len() as int) == query);
        }
    }
    if icao2 == query {
        assert(occurs_at(icao2, query, 0)) by {
            assert(icao2.subrange(0, query.len() as int) =~= query);
        }
    }
    if icao == query {
        assert(occurs_at(icao, query, 0)) by {
            assert(icao.subrange(0, query.len() as int) =~= query);
        }
    }
    if starts_with(icao, query) {
        assert(occurs_at(icao, query, 0)) by {
            assert(icao.subrange(0, query.len() as int) == query);
        }
    }
}

} // verus!
