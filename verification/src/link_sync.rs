//! The decisions of syncing CSL packages into other folders by hard links:
//! what to do with each file found at the target, which files of an earlier
//! sync are stale, and what the record of the sync keeps. Files that the
//! manager did not place are never removed.

use vstd::prelude::*;
use crate::csl::{insert_sorted_unique, seq_set, string_seqs, strictly_sorted};
use crate::text::{chars_of, eq_chars, string_of, trim, trim_vec};

verus! {

/// How a sync treats what is there: reconciling removes what an earlier
/// sync placed and is no longer wanted; filling only adds what is missing.
#[derive(Debug, Clone, Copy, PartialEq, Eq, Structural)]
pub enum LinkSyncMode {
    MissingOnly,
    Reconcile,
}

/// What is at the target of a package file.
#[derive(Debug, Clone, Copy, PartialEq, Eq, Structural)]
pub enum TargetInspection {
    /// Nothing is there.
    Missing,
    /// A file that matches the canonical one.
    Matches,
    /// A file that differs from the canonical one.
    Differs,
    /// A file that could not be compared.
    CompareFailed,
    /// The target could not be inspected at all.
    InspectFailed,
}

/// What the sync does with a package file.
#[derive(Debug, Clone, Copy, PartialEq, Eq, Structural)]
pub enum HardlinkFileAction {
    /// Keep the matching file, and record it.
    KeepExisting,
    /// Create the link, and record it when that works.
    Link,
    /// Remove the file an earlier sync placed, then link.
    ReplaceWithLink,
    /// Leave the user's own file, with a warning.
    PreserveUserFile,
    /// Leave the file, with the error as a warning.
    Skip,
}

/// The action for one package file: link what is missing, keep what
/// matches, replace what an earlier sync placed, and never touch a file the
/// user put there.
pub open spec fn file_action(target: TargetInspection, was_managed: bool) -> HardlinkFileAction {
    match target {
        TargetInspection::Missing => HardlinkFileAction::Link,
        TargetInspection::Matches => HardlinkFileAction::KeepExisting,
        TargetInspection::Differs => if was_managed {
            HardlinkFileAction::ReplaceWithLink
        } else {
            HardlinkFileAction::PreserveUserFile
        },
        TargetInspection::CompareFailed => if was_managed {
            HardlinkFileAction::ReplaceWithLink
        } else {
            HardlinkFileAction::Skip
        },
        TargetInspection::InspectFailed => HardlinkFileAction::Skip,
    }
}

pub fn hardlink_file_action(target: TargetInspection, was_managed: bool) -> (r: HardlinkFileAction)
    ensures
        r == file_action(target, was_managed),
        !was_managed ==> r != HardlinkFileAction::ReplaceWithLink,
        target != TargetInspection::Missing && target != TargetInspection::InspectFailed && !was_managed
            ==> (r == HardlinkFileAction::KeepExisting || r == HardlinkFileAction::PreserveUserFile || r
            == HardlinkFileAction::Skip),
{
    match target {
        TargetInspection::Missing => HardlinkFileAction::Link,
        TargetInspection::Matches => HardlinkFileAction::KeepExisting,
        TargetInspection::Differs => if was_managed {
            HardlinkFileAction::ReplaceWithLink
        } else {
            HardlinkFileAction::PreserveUserFile
        },
        TargetInspection::CompareFailed => if was_managed {
            HardlinkFileAction::ReplaceWithLink
        } else {
            HardlinkFileAction::Skip
        },
        TargetInspection::InspectFailed => HardlinkFileAction::Skip,
    }
}

fn contains_text(list: &Vec<String>, item: &str) -> (r: bool)
    ensures
        r == string_seqs(list@).contains(item@),
{
    let ghost all = string_seqs(list@);
    let x = chars_of(item);
    let mut i: usize = 0;
    while i < list.len()
        invariant
            0 <= i <= list.len(),
            all == string_seqs(list@),
            x@ == item@,
            forall|q: int| 0 <= q < i ==> (#[trigger] all[q]) != item@,
        decreases list.len() - i,
    {
        assert(all[i as int] == list@[i as int]@);
        if eq_chars(&chars_of(list[i].as_str()), &x) {
            return true;
        }
        i = i + 1;
    }
    false
}

/// The files of the earlier sync that are no longer in the package, in the
/// order recorded.
pub open spec fn stale_of(previous: Seq<Seq<char>>, current: Seq<Seq<char>>) -> Seq<Seq<char>>
    decreases previous.len(),
{
    if previous.len() == 0 {
        Seq::empty()
    } else {
        let rest = stale_of(previous.drop_last(), current);
        if current.contains(previous.last()) {
            rest
        } else {
            rest.push(previous.last())
        }
    }
}

/// The files to remove before syncing: when reconciling, the files of the
/// earlier sync that the package no longer has; when filling, none.
pub fn stale_managed_files(mode: LinkSyncMode, previous: &Vec<String>, current: &Vec<String>) -> (r: Vec<String>)
    ensures
        mode == LinkSyncMode::MissingOnly ==> r@.len() == 0,
        mode == LinkSyncMode::Reconcile ==> string_seqs(r@) == stale_of(string_seqs(previous@), string_seqs(current@)),
{
    let mut out: Vec<String> = Vec::new();
    if mode == LinkSyncMode::MissingOnly {
        return out;
    }
    let ghost prev = string_seqs(previous@);
    let ghost cur = string_seqs(current@);
    let mut i: usize = 0;
    assert(prev.subrange(0, 0) =~= Seq::<Seq<char>>::empty());
    assert(string_seqs(out@) =~= Seq::<Seq<char>>::empty());
    while i < previous.len()
        invariant
            0 <= i <= previous.len(),
            prev == string_seqs(previous@),
            cur == string_seqs(current@),
            string_seqs(out@) == stale_of(prev.subrange(0, i as int), cur),
        decreases previous.len() - i,
    {
        let ghost sub = prev.subrange(0, i + 1);
        assert(sub.drop_last() =~= prev.subrange(0, i as int));
        assert(sub.last() == previous@[i as int]@);
        if !contains_text(current, previous[i].as_str()) {
            let ghost before = string_seqs(out@);
            out.push(string_of(&chars_of(previous[i].as_str())));
            assert(string_seqs(out@) =~= before.push(previous@[i as int]@));
        }
        i = i + 1;
    }
    assert(prev.subrange(0, prev.len() as int) =~= prev);
    out
}

/// The record of a sync: the files placed or kept now, and when filling,
/// also every file of the earlier sync; sorted, each once.
pub fn next_manifest_files(mode: LinkSyncMode, previous: &Vec<String>, placed: &Vec<String>) -> (r: Vec<String>)
    ensures
        strictly_sorted(string_seqs(r@)),
        seq_set(string_seqs(r@)) == if mode == LinkSyncMode::MissingOnly {
            seq_set(string_seqs(previous@)) + seq_set(string_seqs(placed@))
        } else {
            seq_set(string_seqs(placed@))
        },
{
    let mut out: Vec<String> = Vec::new();
    assert(seq_set(string_seqs(out@)) =~= Set::<Seq<char>>::empty());
    let ghost base: Set<Seq<char>> = Set::empty();
    if mode == LinkSyncMode::MissingOnly {
        let mut i: usize = 0;
        while i < previous.len()
            invariant
                0 <= i <= previous.len(),
                strictly_sorted(string_seqs(out@)),
                seq_set(string_seqs(out@)) == seq_set(string_seqs(previous@).subrange(0, i as int)),
            decreases previous.len() - i,
        {
            insert_sorted_unique(&mut out, previous[i].as_str());
            assert(seq_set(string_seqs(previous@).subrange(0, i + 1)) =~= seq_set(
                string_seqs(previous@).subrange(0, i as int),
            ).insert(previous@[i as int]@)) by {
                let s1 = string_seqs(previous@).subrange(0, i + 1);
                let s0 = string_seqs(previous@).subrange(0, i as int);
                assert forall|n: Seq<char>| s1.contains(n) <==> (s0.contains(n) || n == previous@[i as int]@) by {
                    if s1.contains(n) {
                        let k = choose|k: int| 0 <= k < s1.len() && s1[k] == n;
                        if k < i {
                            assert(s0[k] == n);
                        }
                    }
                    if s0.contains(n) {
                        let k = choose|k: int| 0 <= k < s0.len() && s0[k] == n;
                        assert(s1[k] == n);
                    }
                    if n == previous@[i as int]@ {
                        assert(s1[i as int] == n);
                    }
                }
            }
            i = i + 1;
        }
        assert(string_seqs(previous@).subrange(0, previous@.len() as int) =~= string_seqs(previous@));
    }
    let ghost start = seq_set(string_seqs(out@));
    assert(start == if mode == LinkSyncMode::MissingOnly {
        seq_set(string_seqs(previous@))
    } else {
        Set::<Seq<char>>::empty()
    });
    let mut j: usize = 0;
    while j < placed.len()
        invariant
            0 <= j <= placed.len(),
            strictly_sorted(string_seqs(out@)),
            seq_set(string_seqs(out@)) == start + seq_set(string_seqs(placed@).subrange(0, j as int)),
        decreases placed.len() - j,
    {
        insert_sorted_unique(&mut out, placed[j].as_str());
        assert(seq_set(string_seqs(placed@).subrange(0, j + 1)) =~= seq_set(
            string_seqs(placed@).subrange(0, j as int),
        ).insert(placed@[j as int]@)) by {
            let s1 = string_seqs(placed@).subrange(0, j + 1);
            let s0 = string_seqs(placed@).subrange(0, j as int);
            assert forall|n: Seq<char>| s1.contains(n) <==> (s0.contains(n) || n == placed@[j as int]@) by {
                if s1.contains(n) {
                    let k = choose|k: int| 0 <= k < s1.len() && s1[k] == n;
                    if k < j {
                        assert(s0[k] == n);
                    }
                }
                if s0.contains(n) {
                    let k = choose|k: int| 0 <= k < s0.len() && s0[k] == n;
                    assert(s1[k] == n);
                }
                if n == placed@[j as int]@ {
                    assert(s1[j as int] == n);
                }
            }
        }
        assert(start + seq_set(string_seqs(placed@).subrange(0, j + 1)) =~= (start + seq_set(
            string_seqs(placed@).subrange(0, j as int),
        )).insert(placed@[j as int]@));
        j = j + 1;
    }
    assert(string_seqs(placed@).subrange(0, placed@.len() as int) =~= string_seqs(placed@));
    assert(Set::<Seq<char>>::empty() + seq_set(string_seqs(placed@)) =~= seq_set(string_seqs(placed@)));
    out
}

/// Filling the missing files keeps every file of the earlier sync: none is
/// stale, and the new record holds them all.
pub proof fn law_missing_only_keeps_managed_files(previous: Seq<Seq<char>>, placed: Seq<Seq<char>>, next: Seq<Seq<char>>)
    requires
        seq_set(next) == seq_set(previous) + seq_set(placed),
    ensures
        forall|f: Seq<char>| previous.contains(f) ==> next.contains(f),
{
    assert forall|f: Seq<char>| previous.contains(f) implies next.contains(f) by {
        assert(seq_set(previous).contains(f));
        assert(seq_set(next).contains(f));
    }
}

/// Reconciling removes exactly the files of the earlier sync that the
/// package no longer has: every stale file was recorded and is not in the
/// package, and every recorded file not in the package is stale.
pub proof fn law_reconcile_removes_only_stale(previous: Seq<Seq<char>>, current: Seq<Seq<char>>)
    ensures
        forall|f: Seq<char>|
            #[trigger] stale_of(previous, current).contains(f) <==> (previous.contains(f) && !current.contains(f)),
    decreases previous.len(),
{
    if previous.len() > 0 {
        let d = previous.drop_last();
        law_reconcile_removes_only_stale(d, current);
        let rest = stale_of(d, current);
        let s = stale_of(previous, current);
        assert forall|f: Seq<char>| #[trigger] s.contains(f) <==> (previous.contains(f) && !current.contains(f)) by {
            if rest.contains(f) {
                let k = choose|k: int| 0 <= k < rest.len() && rest[k] == f;
                assert(s[k] == f);
                let m = choose|m: int| 0 <= m < d.len() && d[m] == f;
                assert(previous[m] == f);
            }
            if s.contains(f) && !rest.contains(f) {
                let k = choose|k: int| 0 <= k < s.len() && s[k] == f;
                assert(k == rest.len());
                assert(previous[previous.len() - 1] == f);
            }
            if previous.contains(f) && !current.contains(f) {
                let m = choose|m: int| 0 <= m < previous.len() && previous[m] == f;
                if m < previous.len() - 1 {
                    assert(d[m] == f);
                } else {
                    assert(s[s.len() - 1] == f);
                }
            }
        }
    } else {
        assert forall|f: Seq<char>| #[trigger] stale_of(previous, current).contains(f) <==> (previous.contains(f)
            && !current.contains(f)) by {}
    }
}

/// The files a cleanup removes from a target package: each file of the
/// sync record once, in sorted order; nothing without a record. Files the
/// record does not list are left.
pub fn managed_files_to_remove(manifest_files: Option<&Vec<String>>) -> (r: Vec<String>)
    ensures
        strictly_sorted(string_seqs(r@)),
        seq_set(string_seqs(r@)) == match manifest_files {
            Some(f) => seq_set(string_seqs(f@)),
            None => Set::<Seq<char>>::empty(),
        },
{
    let mut out: Vec<String> = Vec::new();
    assert(seq_set(string_seqs(out@)) =~= Set::<Seq<char>>::empty());
    match manifest_files {
        None => out,
        Some(files) => {
            let mut i: usize = 0;
            while i < files.len()
                invariant
                    0 <= i <= files@.len(),
                    strictly_sorted(string_seqs(out@)),
                    seq_set(string_seqs(out@)) == seq_set(string_seqs(files@.subrange(0, i as int))),
                decreases files@.len() - i,
            {
                insert_sorted_unique(&mut out, files[i].as_str());
                proof {
                    let a = string_seqs(files@.subrange(0, i as int));
                    let x = files@[i as int]@;
                    let b = a.push(x);
                    assert(string_seqs(files@.subrange(0, i + 1)) =~= b);
                    assert forall|n: Seq<char>| b.contains(n) <==> (a.contains(n) || n == x) by {
                        if b.contains(n) {
                            let k = choose|k: int| 0 <= k < b.len() && b[k] == n;
                            if k < a.len() {
                                assert(a[k] == n);
                            }
                        }
                        if a.contains(n) {
                            let k = choose|k: int| 0 <= k < a.len() && a[k] == n;
                            assert(b[k] == n);
                        }
                        if n == x {
                            assert(b[a.len() as int] == x);
                        }
                    }
                    assert(seq_set(b) =~= seq_set(a).insert(x));
                }
                i = i + 1;
            }
            assert(files@.subrange(0, i as int) =~= files@);
            out
        },
    }
}

/// A folder found to sync into (its path as a key, as the caller compares
/// paths), and whether hard links into it work.
#[derive(Debug, Clone)]
pub struct SyncTarget {
    pub base: String,
    pub hard_links: bool,
}

pub open spec fn target_views(v: Seq<SyncTarget>) -> Seq<(Seq<char>, bool)> {
    v.map_values(|t: SyncTarget| (t.base@, t.hard_links))
}

/// What a sync of the packages into the other folders does.
#[derive(Debug, Clone)]
pub struct LinkSyncPlan {
    /// Reconciling when packages were named, filling otherwise.
    pub mode: LinkSyncMode,
    /// The packages to sync.
    pub packages: Vec<String>,
    /// The folders to sync them into.
    pub active_targets: Vec<SyncTarget>,
    /// The folders to clean up.
    pub cleanup_targets: Vec<String>,
    /// The packages to clean up in them; `None` when they are to be read
    /// from the folders themselves.
    pub cleanup_packages: Option<Vec<String>>,
}

pub open spec fn trimmed_all(v: Seq<Seq<char>>) -> Seq<Seq<char>> {
    v.map_values(|p: Seq<char>| trim(p))
}

/// The targets kept by a choice of folders: all without one; else those
/// whose path is one of the chosen ones (trimmed, blank ones ignored).
pub open spec fn chosen_targets(ts: Seq<(Seq<char>, bool)>, chosen: Option<Seq<Seq<char>>>) -> Seq<(Seq<char>, bool)>
    decreases ts.len(),
{
    if ts.len() == 0 {
        Seq::empty()
    } else {
        let prev = chosen_targets(ts.drop_last(), chosen);
        let keep = match chosen {
            None => true,
            Some(c) => ts.last().0.len() > 0 && trimmed_all(c).contains(ts.last().0),
        };
        if keep {
            prev.push(ts.last())
        } else {
            prev
        }
    }
}

/// The cleanup folders without the canonical one, in order.
pub open spec fn cleanup_of(paths: Seq<Seq<char>>, canonical: Seq<char>) -> Seq<Seq<char>>
    decreases paths.len(),
{
    if paths.len() == 0 {
        Seq::empty()
    } else {
        let prev = cleanup_of(paths.drop_last(), canonical);
        if paths.last() == canonical {
            prev
        } else {
            prev.push(paths.last())
        }
    }
}

fn is_chosen(chosen: &Vec<String>, base: &String) -> (r: bool)
    ensures
        r == (base@.len() > 0 && trimmed_all(string_seqs(chosen@)).contains(base@)),
{
    let ghost ts = trimmed_all(string_seqs(chosen@));
    let b = chars_of(base.as_str());
    if b.len() == 0 {
        return false;
    }
    let mut i: usize = 0;
    while i < chosen.len()
        invariant
            0 <= i <= chosen@.len(),
            ts == trimmed_all(string_seqs(chosen@)),
            b@ == base@,
            b@.len() > 0,
            forall|q: int| 0 <= q < i ==> (#[trigger] ts[q]) != base@,
        decreases chosen@.len() - i,
    {
        let t = trim_vec(&chars_of(chosen[i].as_str()));
        assert(ts[i as int] == trim(chosen@[i as int]@));
        if eq_chars(&t, &b) {
            assert(ts[i as int] == base@);
            assert(ts.contains(base@));
            assert(b@.len() > 0);
            assert(base@.len() > 0);
            return true;
        }
        i = i + 1;
    }
    false
}

fn copy_strings(v: &Vec<String>) -> (r: Vec<String>)
    ensures
        string_seqs(r@) == string_seqs(v@),
{
    let mut out: Vec<String> = Vec::new();
    let mut i: usize = 0;
    while i < v.len()
        invariant
            0 <= i <= v@.len(),
            string_seqs(out@) == string_seqs(v@).subrange(0, i as int),
        decreases v@.len() - i,
    {
        let ghost before = out@;
        out.push(v[i].clone());
        assert(string_seqs(out@) =~= string_seqs(before).push(v@[i as int]@));
        assert(string_seqs(out@) =~= string_seqs(v@).subrange(0, i + 1));
        i = i + 1;
    }
    assert(string_seqs(v@).subrange(0, i as int) =~= string_seqs(v@));
    out
}

/// Plans a sync of packages from the canonical folder into the other
/// folders: reconcile when packages are named (sorted, each once), else
/// fill in the installed ones; keep the found folders that were chosen
/// (all when no choice was made), in order; clean up the given folders
/// other than the canonical one, in order, removing the named packages
/// there, none when no folder is to be cleaned, and else the packages read
/// from those folders.
pub fn plan_link_sync(
    canonical_base: &str,
    discovered: &Vec<SyncTarget>,
    package_names: Option<&Vec<String>>,
    target_paths: Option<&Vec<String>>,
    cleanup_paths: Option<&Vec<String>>,
    installed: &Vec<String>,
) -> (r: LinkSyncPlan)
    ensures
        r.mode == (if package_names is Some {
            LinkSyncMode::Reconcile
        } else {
            LinkSyncMode::MissingOnly
        }),
        match package_names {
            Some(n) => strictly_sorted(string_seqs(r.packages@)) && seq_set(string_seqs(r.packages@))
                == seq_set(string_seqs(n@)),
            None => string_seqs(r.packages@) == string_seqs(installed@),
        },
        target_views(r.active_targets@) == chosen_targets(
            target_views(discovered@),
            match target_paths {
                Some(t) => Some(string_seqs(t@)),
                None => None::<Seq<Seq<char>>>,
            },
        ),
        string_seqs(r.cleanup_targets@) == cleanup_of(
            match cleanup_paths {
                Some(c) => string_seqs(c@),
                None => Seq::<Seq<char>>::empty(),
            },
            canonical_base@,
        ),
        match r.cleanup_packages {
            None => r.cleanup_targets@.len() > 0 && package_names is None,
            Some(c) => if r.cleanup_targets@.len() == 0 {
                c@.len() == 0
            } else {
                package_names is Some && string_seqs(c@) == string_seqs(r.packages@)
            },
        },
{
    let mode = if package_names.is_some() {
        LinkSyncMode::Reconcile
    } else {
        LinkSyncMode::MissingOnly
    };
    let packages = match package_names {
        Some(n) => managed_files_to_remove(Some(n)),
        None => copy_strings(installed),
    };
    let ghost ds = target_views(discovered@);
    let ghost ch = match target_paths {
        Some(t) => Some(string_seqs(t@)),
        None => None::<Seq<Seq<char>>>,
    };
    let mut active: Vec<SyncTarget> = Vec::new();
    let mut i: usize = 0;
    while i < discovered.len()
        invariant
            0 <= i <= discovered@.len(),
            ds == target_views(discovered@),
            ch == match target_paths {
                Some(t) => Some(string_seqs(t@)),
                None => None::<Seq<Seq<char>>>,
            },
            target_views(active@) == chosen_targets(ds.subrange(0, i as int), ch),
        decreases discovered@.len() - i,
    {
        let ghost sub = ds.subrange(0, i + 1);
        assert(sub.drop_last() =~= ds.subrange(0, i as int));
        assert(sub.last() == (discovered@[i as int].base@, discovered@[i as int].hard_links));
        let keep = match target_paths {
            None => true,
            Some(t) => is_chosen(t, &discovered[i].base),
        };
        if keep {
            let ghost before = active@;
            active.push(SyncTarget { base: discovered[i].base.clone(), hard_links: discovered[i].hard_links });
            assert(target_views(active@) =~= target_views(before).push(sub.last()));
        }
        i = i + 1;
    }
    assert(ds.subrange(0, discovered@.len() as int) =~= ds);
    let ghost cs = match cleanup_paths {
        Some(c) => string_seqs(c@),
        None => Seq::<Seq<char>>::empty(),
    };
    let mut cleanup: Vec<String> = Vec::new();
    match cleanup_paths {
        Some(c) => {
            let canon = chars_of(canonical_base);
            let mut k: usize = 0;
            while k < c.len()
                invariant
                    0 <= k <= c@.len(),
                    cs == string_seqs(c@),
                    canon@ == canonical_base@,
                    string_seqs(cleanup@) == cleanup_of(cs.subrange(0, k as int), canonical_base@),
                decreases c@.len() - k,
            {
                let ghost sub = cs.subrange(0, k + 1);
                assert(sub.drop_last() =~= cs.subrange(0, k as int));
                assert(sub.last() == c@[k as int]@);
                if !eq_chars(&chars_of(c[k].as_str()), &canon) {
                    let ghost before = cleanup@;
                    cleanup.push(c[k].clone());
                    assert(string_seqs(cleanup@) =~= string_seqs(before).push(c@[k as int]@));
                }
                k = k + 1;
            }
            assert(cs.subrange(0, c@.len() as int) =~= cs);
        },
        None => {
            assert(string_seqs(cleanup@) =~= cleanup_of(cs, canonical_base@));
        },
    }
    let cleanup_packages = if cleanup.len() == 0 {
        Some(Vec::new())
    } else if package_names.is_some() {
        Some(copy_strings(&packages))
    } else {
        None
    };
    LinkSyncPlan { mode, packages, active_targets: active, cleanup_targets: cleanup, cleanup_packages }
}

/// What is at the place of a package in a target folder.
#[derive(Debug, Clone, Copy, PartialEq, Eq, Structural)]
pub enum PackageSlot {
    /// A link, and whether it points at the canonical package.
    Link(bool),
    /// A real folder.
    Directory,
    /// Nothing.
    Missing,
    /// Something that is neither a link nor a folder.
    Other,
}

/// How syncing a package by hard links starts.
#[derive(Debug, Clone, PartialEq, Eq)]
pub enum PackageSyncStart {
    /// Nothing to do: the package is already linked as a whole.
    Skip,
    /// Remove the link that is there, then sync into a new folder.
    ReplaceLink,
    /// Sync into the folder (created when missing).
    Sync,
    /// Leave the package, with this warning.
    Refuse(String),
}

/// How syncing a package at `package_path` starts: when filling, a link
/// that already points at the canonical package is left as it is; another
/// link is replaced; something that is not a folder is left with a
/// warning; a folder or nothing is synced into.
pub fn hardlink_package_start(mode: LinkSyncMode, slot: PackageSlot, package_path: &str) -> (r: PackageSyncStart)
    ensures
        match slot {
            PackageSlot::Link(points) => if mode == LinkSyncMode::MissingOnly && points {
                r == PackageSyncStart::Skip
            } else {
                r == PackageSyncStart::ReplaceLink
            },
            PackageSlot::Other => r matches PackageSyncStart::Refuse(w) && w@ == "Skipped "@ + package_path@
                + ": file exists and cannot be replaced with managed hard links"@,
            _ => r == PackageSyncStart::Sync,
        },
{
    match slot {
        PackageSlot::Link(points) => if mode == LinkSyncMode::MissingOnly && points {
            PackageSyncStart::Skip
        } else {
            PackageSyncStart::ReplaceLink
        },
        PackageSlot::Other => {
            let mut w = chars_of("Skipped ");
            crate::text::push_all(&mut w, &chars_of(package_path));
            crate::text::push_all(&mut w, &chars_of(": file exists and cannot be replaced with managed hard links"));
            PackageSyncStart::Refuse(string_of(&w))
        },
        _ => PackageSyncStart::Sync,
    }
}

/// Whether a file ends up in the record of the sync: a kept matching file
/// always; a file to link when the link was made (and, for a replaced
/// file, the old one was removed first); a preserved or skipped file
/// never.
pub fn file_recorded(action: HardlinkFileAction, removed: bool, linked: bool) -> (r: bool)
    ensures
        r == match action {
            HardlinkFileAction::KeepExisting => true,
            HardlinkFileAction::Link => linked,
            HardlinkFileAction::ReplaceWithLink => removed && linked,
            _ => false,
        },
{
    match action {
        HardlinkFileAction::KeepExisting => true,
        HardlinkFileAction::Link => linked,
        HardlinkFileAction::ReplaceWithLink => removed && linked,
        _ => false,
    }
}

} // verus!
