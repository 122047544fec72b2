//! The decisions of installing a Gateway airport: whether a scenery package
//! that the manager does not own already provides the airport, and what to
//! do with the folder the archive unpacks to.

use vstd::prelude::*;
use crate::addon::{dec_i64, dec_int};
use crate::flatten::{SceneryCategory, SceneryPackageInfo};
use crate::text::{
    ascii_lower_seq, ascii_lower_vec, chars_of, contains, contains_exec, eq_chars, eq_ignore_ascii_case,
    eq_ignore_ascii_case_exec, push_all, string_of,
};

verus! {

pub open spec fn lower_names(v: Seq<String>) -> Seq<Seq<char>> {
    v.map_values(|s: String| ascii_lower_seq(s@))
}

/// A package provides the airport against a Gateway install: its airport
/// is the code (ASCII case aside), it is not a default airport, and its
/// folder is not one of the manager's own (ASCII case aside).
pub open spec fn foreign_provider(p: SceneryPackageInfo, managed: Seq<String>, icao: Seq<char>) -> bool {
    &&& p.airport_id matches Some(id) && eq_ignore_ascii_case(id@, icao)
    &&& p.category != SceneryCategory::DefaultAirport
    &&& !lower_names(managed).contains(ascii_lower_seq(p.folder_name@))
}

/// The index of the first package that provides the airport.
pub open spec fn first_foreign_provider(ps: Seq<SceneryPackageInfo>, managed: Seq<String>, icao: Seq<char>) -> Option<
    int,
>
    decreases ps.len(),
{
    if ps.len() == 0 {
        None
    } else if foreign_provider(ps[0], managed, icao) {
        Some(0)
    } else {
        match first_foreign_provider(ps.drop_first(), managed, icao) {
            Some(i) => Some(i + 1),
            None => None,
        }
    }
}

fn lower_contains(managed: &Vec<String>, name: &[char]) -> (r: bool)
    ensures
        r == lower_names(managed@).contains(ascii_lower_seq(name@)),
{
    let key = ascii_lower_vec(name);
    let ghost all = lower_names(managed@);
    let mut i: usize = 0;
    while i < managed.len()
        invariant
            0 <= i <= managed.len(),
            all == lower_names(managed@),
            key@ == ascii_lower_seq(name@),
            forall|q: int| 0 <= q < i ==> (#[trigger] all[q]) != key@,
        decreases managed.len() - i,
    {
        let m = ascii_lower_vec(&chars_of(managed[i].as_str()));
        assert(all[i as int] == m@);
        if eq_chars(&m, &key) {
            return true;
        }
        i = i + 1;
    }
    false
}

fn is_foreign_provider(p: &SceneryPackageInfo, managed: &Vec<String>, icao: &[char]) -> (r: bool)
    ensures
        r == foreign_provider(*p, managed@, icao@),
{
    let id_matches = match &p.airport_id {
        Some(id) => eq_ignore_ascii_case_exec(&chars_of(id.as_str()), icao),
        None => false,
    };
    id_matches && p.category != SceneryCategory::DefaultAirport && !lower_contains(
        managed,
        &chars_of(p.folder_name.as_str()),
    )
}

/// The folder of the first indexed package that already provides the
/// airport and is not one of the manager's own installs.
pub fn conflicting_package_folder(packages: &Vec<SceneryPackageInfo>, managed_folders: &Vec<String>, icao: &str) -> (r:
    Option<String>)
    ensures
        match first_foreign_provider(packages@, managed_folders@, icao@) {
            Some(i) => r matches Some(f) && f@ == packages@[i].folder_name@,
            None => r is None,
        },
{
    let code = chars_of(icao);
    let ghost all = packages@;
    let mut i: usize = 0;
    assert(all.subrange(0, all.len() as int) =~= all);
    while i < packages.len()
        invariant
            0 <= i <= packages.len(),
            all == packages@,
            code@ == icao@,
            first_foreign_provider(all, managed_folders@, icao@) == (match first_foreign_provider(
                all.subrange(i as int, all.len() as int),
                managed_folders@,
                icao@,
            ) {
                Some(q) => Some(q + i),
                None => None,
            }),
        decreases packages.len() - i,
    {
        let ghost rest = all.subrange(i as int, all.len() as int);
        assert(rest[0] == packages@[i as int]);
        assert(rest.drop_first() =~= all.subrange(i + 1, all.len() as int));
        if is_foreign_provider(&packages[i], managed_folders, &code) {
            return Some(string_of(&chars_of(packages[i].folder_name.as_str())));
        }
        i = i + 1;
    }
    None
}

/// A folder of `Custom Scenery` as the scan finds it: its name, whether it
/// is a directory, and what classifying it gave (nothing when it failed).
#[derive(Debug, Clone)]
pub struct ScannedSceneryFolder {
    pub folder_name: String,
    pub is_dir: bool,
    pub info: Option<SceneryPackageInfo>,
}

/// A scanned folder provides the airport against a Gateway install: it is a
/// directory, not the manager's own, not a global airports folder, and its
/// classification names the airport and is not a default airport.
pub open spec fn foreign_scanned(e: ScannedSceneryFolder, managed: Seq<String>, icao: Seq<char>) -> bool {
    let key = ascii_lower_seq(e.folder_name@);
    &&& e.is_dir
    &&& !lower_names(managed).contains(key)
    &&& !contains(key, "global airports"@)
    &&& e.info matches Some(info) && info.category != SceneryCategory::DefaultAirport && (
    info.airport_id matches Some(id) && eq_ignore_ascii_case(id@, icao))
}

pub open spec fn first_foreign_scanned(es: Seq<ScannedSceneryFolder>, managed: Seq<String>, icao: Seq<char>) -> Option<
    int,
>
    decreases es.len(),
{
    if es.len() == 0 {
        None
    } else if foreign_scanned(es[0], managed, icao) {
        Some(0)
    } else {
        match first_foreign_scanned(es.drop_first(), managed, icao) {
            Some(i) => Some(i + 1),
            None => None,
        }
    }
}

fn is_foreign_scanned(e: &ScannedSceneryFolder, managed: &Vec<String>, icao: &[char]) -> (r: bool)
    ensures
        r == foreign_scanned(*e, managed@, icao@),
{
    let name = chars_of(e.folder_name.as_str());
    let key = ascii_lower_vec(&name);
    if !e.is_dir || lower_contains(managed, &name) || contains_exec(&key, &chars_of("global airports")) {
        return false;
    }
    match &e.info {
        None => false,
        Some(info) => info.category != SceneryCategory::DefaultAirport && match &info.airport_id {
            Some(id) => eq_ignore_ascii_case_exec(&chars_of(id.as_str()), icao),
            None => false,
        },
    }
}

/// The first scanned folder of `Custom Scenery` that already provides the
/// airport and is not one of the manager's own installs.
pub fn conflicting_scanned_folder(entries: &Vec<ScannedSceneryFolder>, managed_folders: &Vec<String>, icao: &str) -> (r:
    Option<String>)
    ensures
        match first_foreign_scanned(entries@, managed_folders@, icao@) {
            Some(i) => r matches Some(f) && f@ == entries@[i].folder_name@,
            None => r is None,
        },
{
    let code = chars_of(icao);
    let ghost all = entries@;
    let mut i: usize = 0;
    assert(all.subrange(0, all.len() as int) =~= all);
    while i < entries.len()
        invariant
            0 <= i <= entries.len(),
            all == entries@,
            code@ == icao@,
            first_foreign_scanned(all, managed_folders@, icao@) == (match first_foreign_scanned(
                all.subrange(i as int, all.len() as int),
                managed_folders@,
                icao@,
            ) {
                Some(q) => Some(q + i),
                None => None,
            }),
        decreases entries.len() - i,
    {
        let ghost rest = all.subrange(i as int, all.len() as int);
        assert(rest[0] == entries@[i as int]);
        assert(rest.drop_first() =~= all.subrange(i + 1, all.len() as int));
        if is_foreign_scanned(&entries[i], managed_folders, &code) {
            return Some(string_of(&chars_of(entries[i].folder_name.as_str())));
        }
        i = i + 1;
    }
    None
}

pub open spec fn conflict_message(icao: Seq<char>, folder: Seq<char>) -> Seq<char> {
    "Custom Scenery already contains a non-Gateway airport for "@ + icao + ": "@ + folder
}

/// The refusal of an install that another package of the airport blocks:
/// the index is asked first, then the folder scan.
pub fn find_external_airport_conflict_message(
    icao: &str,
    from_index: Option<String>,
    from_folder_scan: Option<String>,
) -> (r: Option<String>)
    ensures
        match (from_index, from_folder_scan) {
            (Some(f), _) => r matches Some(m) && m@ == conflict_message(icao@, f@),
            (None, Some(f)) => r matches Some(m) && m@ == conflict_message(icao@, f@),
            (None, None) => r is None,
        },
{
    let folder = match from_index {
        Some(f) => f,
        None => match from_folder_scan {
            Some(f) => f,
            None => {
                return None;
            },
        },
    };
    let mut msg = chars_of("Custom Scenery already contains a non-Gateway airport for ");
    push_all(&mut msg, &chars_of(icao));
    push_all(&mut msg, &chars_of(": "));
    push_all(&mut msg, &chars_of(folder.as_str()));
    Some(string_of(&msg))
}

/// An earlier install of the airport: its folder and submission.
#[derive(Debug, Clone)]
pub struct PreviousGatewayInstall {
    pub folder_name: String,
    pub scenery_id: i64,
}

/// What to do with the folder the archive unpacks to.
#[derive(Debug, Clone)]
pub enum GatewayTargetDecision {
    /// Another folder of that name is in the way.
    Conflict(String),
    /// The same submission is installed there already.
    AlreadyInstalled,
    /// Install, replacing the earlier install's folder when it is the same
    /// one, and removing the earlier folder afterwards when it is another.
    Install { overwrite: bool, remove_previous: Option<String> },
}

/// Decides about the target folder of a Gateway install. An existing folder
/// is a conflict unless it is the earlier install's own (ASCII case aside);
/// the same submission already there needs nothing; otherwise the install
/// overwrites its own earlier folder, or removes an earlier folder of
/// another name once it succeeded.
pub fn decide_gateway_install_target(
    target_exists: bool,
    installed_before: &Option<PreviousGatewayInstall>,
    folder_name: &str,
    scenery_id: i64,
) -> (r: GatewayTargetDecision)
    ensures
        match *installed_before {
            None => if target_exists {
                r matches GatewayTargetDecision::Conflict(m) && m@ == "Gateway target folder already exists: "@
                    + folder_name@
            } else {
                r matches GatewayTargetDecision::Install { overwrite, remove_previous } && !overwrite
                    && remove_previous is None
            },
            Some(prev) => {
                let same = eq_ignore_ascii_case(prev.folder_name@, folder_name@);
                if target_exists && !same {
                    r matches GatewayTargetDecision::Conflict(m) && m@ == "Gateway target folder already exists: "@
                        + folder_name@
                } else if prev.scenery_id == scenery_id && target_exists {
                    r is AlreadyInstalled
                } else {
                    r matches GatewayTargetDecision::Install { overwrite, remove_previous } && overwrite == same
                        && if same {
                        remove_previous is None
                    } else {
                        remove_previous matches Some(p) && p@ == prev.folder_name@
                    }
                }
            },
        },
{
    let folder = chars_of(folder_name);
    let same = match installed_before {
        Some(prev) => eq_ignore_ascii_case_exec(&chars_of(prev.folder_name.as_str()), &folder),
        None => false,
    };
    if target_exists && !same {
        let mut msg = chars_of("Gateway target folder already exists: ");
        push_all(&mut msg, &folder);
        return GatewayTargetDecision::Conflict(string_of(&msg));
    }
    match installed_before {
        None => GatewayTargetDecision::Install { overwrite: false, remove_previous: None },
        Some(prev) => {
            if prev.scenery_id == scenery_id && target_exists {
                GatewayTargetDecision::AlreadyInstalled
            } else if same {
                GatewayTargetDecision::Install { overwrite: true, remove_previous: None }
            } else {
                GatewayTargetDecision::Install {
                    overwrite: false,
                    remove_previous: Some(string_of(&chars_of(prev.folder_name.as_str()))),
                }
            }
        },
    }
}

/// The id and the display name of the install task of a submission.
pub fn gateway_task_labels(icao: &str, scenery_id: i64) -> (r: (String, String))
    ensures
        r.0@ == "gateway-"@ + icao@ + "-"@ + dec_int(scenery_id as int),
        r.1@ == "Gateway "@ + icao@ + " #"@ + dec_int(scenery_id as int),
{
    let id = dec_i64(scenery_id);
    let mut a = chars_of("gateway-");
    push_all(&mut a, &chars_of(icao));
    push_all(&mut a, &chars_of("-"));
    push_all(&mut a, &id);
    let mut b = chars_of("Gateway ");
    push_all(&mut b, &chars_of(icao));
    push_all(&mut b, &chars_of(" #"));
    push_all(&mut b, &id);
    (string_of(&a), string_of(&b))
}

/// The failure of an install, if it failed: some task failed, or the
/// reported task did not succeed; its message, else a general one.
pub fn gateway_install_failure(failed_tasks: usize, task_result: &Option<(bool, Option<String>)>) -> (r: Option<
    String,
>)
    ensures
        (failed_tasks > 0 || (task_result matches Some(t) && !t.0)) ==> (r matches Some(m) && m@ == (match *task_result {
            Some((_, Some(e))) => e@,
            _ => "Gateway installation failed"@,
        })),
        !(failed_tasks > 0 || (task_result matches Some(t) && !t.0)) ==> r is None,
{
    let failed = failed_tasks > 0 || match task_result {
        Some((ok, _)) => !*ok,
        None => false,
    };
    if !failed {
        return None;
    }
    match task_result {
        Some((_, Some(e))) => Some(string_of(&chars_of(e.as_str()))),
        _ => Some(string_of(&chars_of("Gateway installation failed"))),
    }
}

} // verus!
