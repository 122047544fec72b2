//! Updates served by X-Updater: the update channel, the snapshots of a
//! product, the actions on files and the plan they make, and the request
//! strategies tried against the server.

use vstd::prelude::*;
use crate::csl::strictly_sorted;
use crate::digest::{copy_bytes, gunzipped, gzip_decode, hex_lower, md5_digest, md5_hex};
use crate::skunk::{
    manifest_path, manifest_path_error, normalize_manifest_path, SkunkUpdateOptions,
    SkunkUpdatePlan, SkunkUpdateResult,
};
use crate::num::{all_digits, dec, dec_vec, is_digit, parse_unsigned};
use crate::text::{
    ascii_lower_seq, ascii_lower_vec, dedup_keep_first, utf8_len_at_most,
    chars_less, lemma_seq_less_total, lemma_seq_less_trans, seq_less,
    eq_ignore_ascii_case, eq_ignore_ascii_case_exec,
    copy_chars, is_ws, is_ws_char, join, join_all, lemma_split_pieces_nonempty, seqs, slice_vec,
    split_by, split_char, split_pieces, lines, lines_of, trim_char, trim_char_vec, chars_of, contains, contains_exec, eq_str, push_all, lowercase, replace_all, replace_vec, starts_with,
    starts_with_exec, string_of, to_lowercase_chars, trim, trim_start_char, trim_start_char_vec,
    trim_vec,
};
use crate::xupdater::{dedup_ignore_list, parse_tagged_update_url, string_views, tagged_host, XUpdaterProfile};

verus! {

/// The update channel asked for: `alpha`, `beta`, or `stable` (also for
/// `release`); otherwise `beta` when the beta was asked for, else `stable`.
pub open spec fn channel_of(channel: Option<Seq<char>>, use_beta: bool) -> Seq<char> {
    let raw = match channel {
        Some(c) => lowercase(trim(c)),
        None => Seq::empty(),
    };
    if raw == "alpha"@ {
        "alpha"@
    } else if raw == "beta"@ {
        "beta"@
    } else if raw == "stable"@ || raw == "release"@ {
        "stable"@
    } else if use_beta {
        "beta"@
    } else {
        "stable"@
    }
}

/// The update channel that the options ask for.
pub fn requested_channel(options: &SkunkUpdateOptions) -> (r: String)
    ensures
        r@ == channel_of(
            match options.channel {
                Some(c) => Some(c@),
                None => None,
            },
            options.use_beta,
        ),
{
    let raw = match &options.channel {
        Some(c) => to_lowercase_chars(&trim_vec(&chars_of(c.as_str()))),
        None => Vec::new(),
    };
    proof {
        reveal_strlit("alpha");
        reveal_strlit("beta");
        reveal_strlit("stable");
        reveal_strlit("release");
    }
    let name = if eq_str(&raw, "alpha") {
        "alpha"
    } else if eq_str(&raw, "beta") {
        "beta"
    } else if eq_str(&raw, "stable") || eq_str(&raw, "release") {
        "stable"
    } else if options.use_beta {
        "beta"
    } else {
        "stable"
    };
    string_of(&chars_of(name))
}

/// The snapshot type of a channel: `alpha`, `beta`, else `release`.
pub open spec fn snapshot_type_of(channel: Seq<char>) -> Seq<char> {
    let c = lowercase(trim(channel));
    if c == "alpha"@ {
        "alpha"@
    } else if c == "beta"@ {
        "beta"@
    } else {
        "release"@
    }
}

pub fn channel_to_snapshot_type(channel: &str) -> (r: String)
    ensures
        r@ == snapshot_type_of(channel@),
{
    let c = to_lowercase_chars(&trim_vec(&chars_of(channel)));
    proof {
        reveal_strlit("alpha");
        reveal_strlit("beta");
        reveal_strlit("release");
    }
    let name = if eq_str(&c, "alpha") {
        "alpha"
    } else if eq_str(&c, "beta") {
        "beta"
    } else {
        "release"
    };
    string_of(&chars_of(name))
}

/// An ignore-list item as compared with paths: `\` turned into `/`,
/// trimmed, leading `/` removed, lower-cased.
pub open spec fn ignore_item_key(item: Seq<char>) -> Seq<char> {
    lowercase(trim_start_char(trim(replace_all(item, seq!['\\'], seq!['/'])), '/'))
}

/// A path is ignored when an ignore-list item names it or a folder above
/// it (case-insensitively).
pub open spec fn ignored_by(rel_path: Seq<char>, ignore_list: Seq<Seq<char>>) -> bool {
    exists|i: int|
        0 <= i < ignore_list.len() && {
            let p = ignore_item_key(#[trigger] ignore_list[i]);
            let n = lowercase(rel_path);
            p.len() > 0 && (n == p || starts_with(n, p.push('/')))
        }
}

pub fn should_ignore_path(rel_path: &str, ignore_list: &[String]) -> (r: bool)
    ensures
        r == ignored_by(rel_path@, string_views(ignore_list@)),
{
    let n = to_lowercase_chars(&chars_of(rel_path));
    let ghost items = string_views(ignore_list@);
    let mut bs: Vec<char> = Vec::new();
    bs.push('\\');
    let mut sl: Vec<char> = Vec::new();
    sl.push('/');
    assert(bs@ =~= seq!['\\']);
    assert(sl@ =~= seq!['/']);
    let mut i: usize = 0;
    while i < ignore_list.len()
        invariant
            0 <= i <= ignore_list.len(),
            items == string_views(ignore_list@),
            n@ == lowercase(rel_path@),
            bs@ == seq!['\\'],
            sl@ == seq!['/'],
            forall|j: int|
                0 <= j < i ==> !({
                    let p = ignore_item_key(#[trigger] items[j]);
                    p.len() > 0 && (n@ == p || starts_with(n@, p.push('/')))
                }),
        decreases ignore_list.len() - i,
    {
        assert(items[i as int] == ignore_list@[i as int]@);
        let replaced = replace_vec(&chars_of(ignore_list[i].as_str()), &bs, &sl);
        let p = to_lowercase_chars(&trim_start_char_vec(&trim_vec(&replaced), '/'));
        if p.len() > 0 {
            let mut ps = p.clone();
            ps.push('/');
            assert(ps@ =~= p@.push('/'));
            if crate::text::eq_chars(&n, &p) || starts_with_exec(&n, &ps) {
                return true;
            }
        }
        i = i + 1;
    }
    false
}

/// What a file entry asks to be done with the file.
#[derive(Debug, Clone, Copy, PartialEq, Eq, Structural)]
pub enum XActionKind {
    Add,
    Replace,
    Delete,
}

/// The state of a file entry as the server wrote it: an integer, a text,
/// or anything else.
#[derive(Debug, Clone)]
pub enum FileStateValue {
    Integer(i64),
    Text(String),
    Other,
}

/// The action a state asks for: `1` adds, `3` deletes; a text `a`, `new`
/// or holding `add` adds, `d` or holding `del` or `remove` deletes;
/// anything else, and no state, replaces.
pub open spec fn file_state_kind(value: Option<FileStateValue>) -> XActionKind {
    match value {
        None => XActionKind::Replace,
        Some(FileStateValue::Integer(v)) => if v == 1 {
            XActionKind::Add
        } else if v == 3 {
            XActionKind::Delete
        } else {
            XActionKind::Replace
        },
        Some(FileStateValue::Text(raw)) => {
            let s = lowercase(trim(raw@));
            if s == "a"@ || contains(s, "add"@) || s == "new"@ {
                XActionKind::Add
            } else if s == "d"@ || contains(s, "del"@) || contains(s, "remove"@) {
                XActionKind::Delete
            } else {
                XActionKind::Replace
            }
        },
        Some(FileStateValue::Other) => XActionKind::Replace,
    }
}

pub fn parse_file_state(value: Option<&FileStateValue>) -> (r: XActionKind)
    ensures
        r == file_state_kind(
            match value {
                Some(v) => Some(*v),
                None => None,
            },
        ),
{
    match value {
        None => XActionKind::Replace,
        Some(FileStateValue::Integer(v)) => if *v == 1 {
            XActionKind::Add
        } else if *v == 3 {
            XActionKind::Delete
        } else {
            XActionKind::Replace
        },
        Some(FileStateValue::Text(raw)) => {
            let s = to_lowercase_chars(&trim_vec(&chars_of(raw.as_str())));
            if eq_str(&s, "a") || contains_exec(&s, &chars_of("add")) || eq_str(&s, "new") {
                XActionKind::Add
            } else if eq_str(&s, "d") || contains_exec(&s, &chars_of("del")) || contains_exec(
                &s,
                &chars_of("remove"),
            ) {
                XActionKind::Delete
            } else {
                XActionKind::Replace
            }
        },
        Some(FileStateValue::Other) => XActionKind::Replace,
    }
}

/// A state that asks for nothing: the integer `0`, or a text that is
/// empty, `0`, `none`, `noop`, `keep` or `unchanged` (trimmed, any case).
pub open spec fn noop_state(value: Option<FileStateValue>) -> bool {
    match value {
        None => false,
        Some(FileStateValue::Integer(v)) => v == 0,
        Some(FileStateValue::Text(raw)) => {
            let s = lowercase(trim(raw@));
            s.len() == 0 || s == "0"@ || s == "none"@ || s == "noop"@ || s == "keep"@ || s
                == "unchanged"@
        },
        Some(FileStateValue::Other) => false,
    }
}

pub fn is_noop_state(value: Option<&FileStateValue>) -> (r: bool)
    ensures
        r == noop_state(
            match value {
                Some(v) => Some(*v),
                None => None,
            },
        ),
{
    match value {
        None => false,
        Some(FileStateValue::Integer(v)) => *v == 0,
        Some(FileStateValue::Text(raw)) => {
            let s = to_lowercase_chars(&trim_vec(&chars_of(raw.as_str())));
            s.len() == 0 || eq_str(&s, "0") || eq_str(&s, "none") || eq_str(&s, "noop") || eq_str(
                &s,
                "keep",
            ) || eq_str(&s, "unchanged")
        },
        Some(FileStateValue::Other) => false,
    }
}

/// A file to download for an action.
#[derive(Debug)]
pub struct XDownloadTask {
    pub rel_path: String,
    pub url: String,
    pub expected_md5: Option<String>,
    pub expected_size: Option<u64>,
}

/// What is done to one file of an add-on.
#[derive(Debug)]
pub struct XAction {
    pub rel_path: String,
    pub kind: XActionKind,
    pub download: Option<XDownloadTask>,
    pub estimated_bytes: u64,
}

/// An action as plain values: its path, its kind, its download (path,
/// URL, expected MD5, expected size) and its estimated bytes.
pub struct ActionView {
    pub path: Seq<char>,
    pub kind: XActionKind,
    pub download: Option<(Seq<char>, Seq<char>, Option<Seq<char>>, Option<u64>)>,
    pub estimated_bytes: u64,
}

pub open spec fn opt_view(o: Option<String>) -> Option<Seq<char>> {
    match o {
        Some(s) => Some(s@),
        None => None,
    }
}

impl XAction {
    pub open spec fn view(&self) -> ActionView {
        ActionView {
            path: self.rel_path@,
            kind: self.kind,
            download: match self.download {
                Some(d) => Some((d.rel_path@, d.url@, opt_view(d.expected_md5), d.expected_size)),
                None => None,
            },
            estimated_bytes: self.estimated_bytes,
        }
    }
}

pub open spec fn action_views(v: Seq<XAction>) -> Seq<ActionView> {
    v.map_values(|a: XAction| a.view())
}

/// The paths of the actions of one kind, in order.
pub open spec fn paths_of_kind(acts: Seq<ActionView>, kind: XActionKind) -> Seq<Seq<char>>
    decreases acts.len(),
{
    if acts.len() == 0 {
        Seq::empty()
    } else {
        let prev = paths_of_kind(acts.drop_last(), kind);
        if acts.last().kind == kind {
            prev.push(acts.last().path)
        } else {
            prev
        }
    }
}

/// A sum that stops at `u64::MAX`.
pub open spec fn sat_add(a: nat, b: nat) -> nat {
    if a + b > u64::MAX {
        u64::MAX as nat
    } else {
        a + b
    }
}

/// The estimated bytes of all actions, added up saturating.
pub open spec fn estimated_total(acts: Seq<ActionView>) -> nat
    decreases acts.len(),
{
    if acts.len() == 0 {
        0
    } else {
        sat_add(estimated_total(acts.drop_last()), acts.last().estimated_bytes as nat)
    }
}

/// What an X-Updater scan found: the server, the versions, the actions
/// and the warnings met on the way.
#[derive(Debug)]
pub struct XPlanContext {
    pub host: String,
    pub local_version: Option<String>,
    pub remote_version: Option<String>,
    pub actions: Vec<XAction>,
    pub warnings: Vec<String>,
}

fn copy_string(s: &String) -> (r: String)
    ensures
        r@ == s@,
{
    s.clone()
}

fn copy_opt_string(s: &Option<String>) -> (r: Option<String>)
    ensures
        opt_view(r) == opt_view(*s),
{
    match s {
        Some(x) => Some(x.clone()),
        None => None,
    }
}

fn copy_strings(v: &Vec<String>) -> (r: Vec<String>)
    ensures
        string_views(r@) == string_views(v@),
{
    let mut out: Vec<String> = Vec::new();
    let mut i: usize = 0;
    while i < v.len()
        invariant
            0 <= i <= v.len(),
            string_views(out@) == string_views(v@).subrange(0, i as int),
        decreases v.len() - i,
    {
        let ghost before = string_views(out@);
        out.push(v[i].clone());
        assert(string_views(out@) =~= before.push(v@[i as int]@));
        assert(string_views(v@).subrange(0, i + 1) =~= string_views(v@).subrange(0, i as int).push(
            v@[i as int]@,
        ));
        i = i + 1;
    }
    assert(string_views(v@).subrange(0, v@.len() as int) =~= string_views(v@));
    out
}

/// Why the products an account returned cannot be scanned: none at all,
/// or none for the target folder; `None` when some were selected.
pub open spec fn products_error(product_count: nat, selected_count: nat, target_path: Seq<char>) -> Option<Seq<char>> {
    if product_count == 0 {
        Some("x-updater returned no products for this account"@)
    } else if selected_count == 0 {
        Some("x-updater did not return a product matching '"@ + target_path + "'"@)
    } else {
        None
    }
}

pub fn check_xupdater_products(product_count: usize, selected_count: usize, target_path: &str) -> (r: Result<(), String>)
    ensures
        match products_error(product_count as nat, selected_count as nat, target_path@) {
            Some(e) => r matches Err(x) && x@ == e,
            None => r is Ok,
        },
{
    if product_count == 0 {
        return Err(string_of(&chars_of("x-updater returned no products for this account")));
    }
    if selected_count == 0 {
        let mut m = chars_of("x-updater did not return a product matching '");
        push_all(&mut m, &chars_of(target_path));
        push_all(&mut m, &chars_of("'"));
        return Err(string_of(&m));
    }
    Ok(())
}

/// Assembles the context of an X-Updater scan from what was fetched and
/// built: the host; the local version as `resolve_local_version_label`
/// finds it; the version labels of the snapshots joined with `, ` (none
/// without labels); the actions of all products merged as
/// `merge_actions` does, in path order; the warnings met, then those of
/// the merge.
pub fn assemble_xupdater_context(
    host: String,
    profile: &XUpdaterProfile,
    selected_products: &[XProduct],
    fallback_version: Option<String>,
    remote_labels: &Vec<String>,
    actions: Vec<XAction>,
    warnings: Vec<String>,
) -> (r: XPlanContext)
    ensures
        r.host@ == host@,
        match local_version_label(profile.version_label, profile.package_version, selected_products@, fallback_version) {
            Some(v) => r.local_version matches Some(x) && x@ == v,
            None => r.local_version is None,
        },
        match r.remote_version {
            Some(v) => remote_labels@.len() > 0 && v@ == join(string_views(remote_labels@), ", "@),
            None => remote_labels@.len() == 0,
        },
        strictly_sorted(action_paths(action_views(r.actions@))),
        action_table(action_views(r.actions@)) == merge_all(action_views(actions@)),
        string_views(r.warnings@) == string_views(warnings@) + merge_all_warnings(action_views(actions@)),
{
    let local_version = resolve_local_version_label(profile, selected_products, fallback_version);
    let remote_version = if remote_labels.len() == 0 {
        None
    } else {
        let mut pieces: Vec<Vec<char>> = Vec::new();
        let mut i: usize = 0;
        while i < remote_labels.len()
            invariant
                0 <= i <= remote_labels@.len(),
                seqs(pieces@) == string_views(remote_labels@).subrange(0, i as int),
            decreases remote_labels@.len() - i,
        {
            let ghost before = seqs(pieces@);
            pieces.push(chars_of(remote_labels[i].as_str()));
            assert(seqs(pieces@) =~= before.push(remote_labels@[i as int]@));
            assert(string_views(remote_labels@).subrange(0, i + 1) =~= string_views(remote_labels@).subrange(0, i as int).push(remote_labels@[i as int]@));
            i = i + 1;
        }
        assert(string_views(remote_labels@).subrange(0, i as int) =~= string_views(remote_labels@));
        Some(string_of(&join_all(&pieces, &chars_of(", "))))
    };
    let mut w = warnings;
    let merged = merge_actions(actions, &mut w);
    XPlanContext { host, local_version, remote_version, actions: merged, warnings: w }
}

/// The plan of an X-Updater update: files added, replaced and deleted as
/// the actions say, nothing skipped, the estimated bytes added up, an
/// update whenever there is an action, never locked.
pub fn build_xupdater_plan(item_type: &str, folder_name: &str, context: &XPlanContext) -> (r:
    SkunkUpdatePlan)
    ensures
        ({
            let acts = action_views(context.actions@);
            &&& r.provider@ == "x-updater"@
            &&& r.item_type@ == item_type@
            &&& r.folder_name@ == folder_name@
            &&& opt_view(r.local_version) == opt_view(context.local_version)
            &&& opt_view(r.remote_version) == opt_view(context.remote_version)
            &&& opt_view(r.remote_module) == Some(context.host@)
            &&& !r.remote_locked
            &&& string_views(r.add_files@) == paths_of_kind(acts, XActionKind::Add)
            &&& string_views(r.replace_files@) == paths_of_kind(acts, XActionKind::Replace)
            &&& string_views(r.delete_files@) == paths_of_kind(acts, XActionKind::Delete)
            &&& r.skip_files@.len() == 0
            &&& r.has_update == (acts.len() > 0)
            &&& r.estimated_download_bytes == estimated_total(acts)
            &&& string_views(r.warnings@) == string_views(context.warnings@)
        }),
{
    let ghost acts = action_views(context.actions@);
    let mut add_files: Vec<String> = Vec::new();
    let mut replace_files: Vec<String> = Vec::new();
    let mut delete_files: Vec<String> = Vec::new();
    let mut estimated: u64 = 0;
    let mut i: usize = 0;
    while i < context.actions.len()
        invariant
            0 <= i <= context.actions.len(),
            acts == action_views(context.actions@),
            string_views(add_files@) == paths_of_kind(acts.subrange(0, i as int), XActionKind::Add),
            string_views(replace_files@) == paths_of_kind(
                acts.subrange(0, i as int),
                XActionKind::Replace,
            ),
            string_views(delete_files@) == paths_of_kind(
                acts.subrange(0, i as int),
                XActionKind::Delete,
            ),
            estimated as nat == estimated_total(acts.subrange(0, i as int)),
        decreases context.actions.len() - i,
    {
        let ghost pre = acts.subrange(0, i as int);
        let ghost post = acts.subrange(0, i + 1);
        assert(post.drop_last() =~= pre);
        assert(post.last() == context.actions@[i as int].view());
        let a = &context.actions[i];
        let path = copy_string(&a.rel_path);
        match a.kind {
            XActionKind::Add => {
                let ghost b = string_views(add_files@);
                add_files.push(path);
                assert(string_views(add_files@) =~= b.push(a.rel_path@));
            },
            XActionKind::Replace => {
                let ghost b = string_views(replace_files@);
                replace_files.push(path);
                assert(string_views(replace_files@) =~= b.push(a.rel_path@));
            },
            XActionKind::Delete => {
                let ghost b = string_views(delete_files@);
                delete_files.push(path);
                assert(string_views(delete_files@) =~= b.push(a.rel_path@));
            },
        }
        estimated = estimated.saturating_add(a.estimated_bytes);
        i = i + 1;
    }
    assert(acts.subrange(0, context.actions@.len() as int) =~= acts);
    proof {
        lemma_kinds_cover(acts);
    }
    let has_update = add_files.len() > 0 || replace_files.len() > 0 || delete_files.len() > 0;
    SkunkUpdatePlan {
        provider: string_of(&chars_of("x-updater")),
        item_type: string_of(&chars_of(item_type)),
        folder_name: string_of(&chars_of(folder_name)),
        local_version: copy_opt_string(&context.local_version),
        remote_version: copy_opt_string(&context.remote_version),
        remote_module: Some(copy_string(&context.host)),
        remote_locked: false,
        has_update,
        estimated_download_bytes: estimated,
        add_files,
        replace_files,
        delete_files,
        skip_files: Vec::new(),
        warnings: copy_strings(&context.warnings),
    }
}

/// Every action is counted under its kind.
proof fn lemma_kinds_cover(acts: Seq<ActionView>)
    ensures
        paths_of_kind(acts, XActionKind::Add).len() + paths_of_kind(acts, XActionKind::Replace).len()
            + paths_of_kind(acts, XActionKind::Delete).len() == acts.len(),
    decreases acts.len(),
{
    if acts.len() > 0 {
        lemma_kinds_cover(acts.drop_last());
    }
}

/// The bytes an install downloads: the expected sizes of the downloads
/// (missing ones count as zero), added up saturating.
pub open spec fn expected_download_total(acts: Seq<ActionView>) -> nat
    decreases acts.len(),
{
    if acts.len() == 0 {
        0
    } else {
        let d = match acts.last().download {
            Some((_p, _u, _m, Some(sz))) => sz as nat,
            _ => 0,
        };
        sat_add(expected_download_total(acts.drop_last()), d)
    }
}

/// The estimated bytes of the actions that download (adds and replaces),
/// added up saturating.
pub open spec fn estimated_download_total(acts: Seq<ActionView>) -> nat
    decreases acts.len(),
{
    if acts.len() == 0 {
        0
    } else {
        let d = if acts.last().kind != XActionKind::Delete {
            acts.last().estimated_bytes as nat
        } else {
            0
        };
        sat_add(estimated_download_total(acts.drop_last()), d)
    }
}

/// The byte total that install progress is measured against: the expected
/// download sizes, or the estimates of the adds and replaces when those
/// come to zero.
pub open spec fn install_byte_total(acts: Seq<ActionView>) -> nat {
    if expected_download_total(acts) == 0 {
        estimated_download_total(acts)
    } else {
        expected_download_total(acts)
    }
}

pub fn install_total_bytes(actions: &Vec<XAction>) -> (r: u64)
    ensures
        r as nat == install_byte_total(action_views(actions@)),
{
    let ghost acts = action_views(actions@);
    let mut expected: u64 = 0;
    let mut estimated: u64 = 0;
    let mut i: usize = 0;
    while i < actions.len()
        invariant
            0 <= i <= actions.len(),
            acts == action_views(actions@),
            expected as nat == expected_download_total(acts.subrange(0, i as int)),
            estimated as nat == estimated_download_total(acts.subrange(0, i as int)),
        decreases actions.len() - i,
    {
        assert(acts.subrange(0, i + 1).drop_last() =~= acts.subrange(0, i as int));
        assert(acts.subrange(0, i + 1).last() == actions@[i as int].view());
        let a = &actions[i];
        match &a.download {
            Some(d) => match d.expected_size {
                Some(sz) => {
                    expected = expected.saturating_add(sz);
                },
                None => {
                    expected = expected.saturating_add(0);
                },
            },
            None => {
                expected = expected.saturating_add(0);
            },
        }
        if a.kind != XActionKind::Delete {
            estimated = estimated.saturating_add(a.estimated_bytes);
        } else {
            estimated = estimated.saturating_add(0);
        }
        i = i + 1;
    }
    assert(acts.subrange(0, actions@.len() as int) =~= acts);
    if expected == 0 {
        estimated
    } else {
        expected
    }
}

/// The result of a completed X-Updater install: every add and replace
/// counts as updated, every delete as deleted.
pub fn xupdater_update_result(
    item_type: &str,
    folder_name: &str,
    context: &XPlanContext,
    plan: &SkunkUpdatePlan,
) -> (r: SkunkUpdateResult)
    ensures
        ({
            let acts = action_views(context.actions@);
            &&& r.provider@ == "x-updater"@
            &&& r.success
            &&& r.message@ == "Update completed successfully"@
            &&& r.item_type@ == item_type@
            &&& r.folder_name@ == folder_name@
            &&& opt_view(r.local_version) == opt_view(context.local_version)
            &&& opt_view(r.remote_version) == opt_view(plan.remote_version)
            &&& r.updated_files == paths_of_kind(acts, XActionKind::Add).len() + paths_of_kind(
                acts,
                XActionKind::Replace,
            ).len()
            &&& r.deleted_files == paths_of_kind(acts, XActionKind::Delete).len()
            &&& r.skipped_files == plan.skip_files@.len()
            &&& !r.rollback_used
        }),
{
    let ghost acts = action_views(context.actions@);
    let mut updated: usize = 0;
    let mut deleted: usize = 0;
    let mut i: usize = 0;
    while i < context.actions.len()
        invariant
            0 <= i <= context.actions.len(),
            acts == action_views(context.actions@),
            updated == paths_of_kind(acts.subrange(0, i as int), XActionKind::Add).len()
                + paths_of_kind(acts.subrange(0, i as int), XActionKind::Replace).len(),
            deleted == paths_of_kind(acts.subrange(0, i as int), XActionKind::Delete).len(),
            updated + deleted == i,
        decreases context.actions.len() - i,
    {
        assert(acts.subrange(0, i + 1).drop_last() =~= acts.subrange(0, i as int));
        assert(acts.subrange(0, i + 1).last() == context.actions@[i as int].view());
        match context.actions[i].kind {
            XActionKind::Delete => {
                deleted = deleted + 1;
            },
            _ => {
                updated = updated + 1;
            },
        }
        i = i + 1;
    }
    assert(acts.subrange(0, context.actions@.len() as int) =~= acts);
    SkunkUpdateResult {
        provider: string_of(&chars_of("x-updater")),
        success: true,
        message: string_of(&chars_of("Update completed successfully")),
        item_type: string_of(&chars_of(item_type)),
        folder_name: string_of(&chars_of(folder_name)),
        local_version: copy_opt_string(&context.local_version),
        remote_version: copy_opt_string(&plan.remote_version),
        updated_files: updated,
        deleted_files: deleted,
        skipped_files: plan.skip_files.len(),
        rollback_used: false,
    }
}

/// The error of a failed install: the failure, and the rollback's own
/// failure when there was one.
pub open spec fn update_failure_text(error: Seq<char>, rollback_error: Option<Seq<char>>) -> Seq<
    char,
> {
    match rollback_error {
        None => "Update failed: "@ + error,
        Some(r) => "Update failed: "@ + error + ". Rollback also failed: "@ + r,
    }
}

pub fn update_failure_message(error: &str, rollback_error: Option<&str>) -> (r: String)
    ensures
        r@ == update_failure_text(
            error@,
            match rollback_error {
                Some(e) => Some(e@),
                None => None,
            },
        ),
{
    let mut v = chars_of("Update failed: ");
    push_all(&mut v, &chars_of(error));
    match rollback_error {
        Some(e) => {
            push_all(&mut v, &chars_of(". Rollback also failed: "));
            push_all(&mut v, &chars_of(e));
        },
        None => {},
    }
    string_of(&v)
}

/// One step of undoing an install: remove a path the install created, or
/// put back a path from its backup.
#[derive(Debug)]
pub enum RollbackStep {
    RemoveCreated(String),
    Restore { original: String, backup: String },
}

/// What an install has to undo on failure: the paths it created and the
/// backups it made, in the order they happened. Nothing is recorded when
/// rollback is off.
#[derive(Debug)]
pub struct RollbackState {
    pub enabled: bool,
    pub created_paths: Vec<String>,
    pub backups: Vec<(String, String)>,
}

pub open spec fn pair_views(v: Seq<(String, String)>) -> Seq<(Seq<char>, Seq<char>)> {
    v.map_values(|p: (String, String)| (p.0@, p.1@))
}

/// A path that has a backup already.
pub open spec fn backed_up(backups: Seq<(Seq<char>, Seq<char>)>, path: Seq<char>) -> bool {
    exists|i: int| 0 <= i < backups.len() && (#[trigger] backups[i]).0 == path
}

/// Removing the created paths, latest first.
pub open spec fn created_steps(created: Seq<Seq<char>>) -> Seq<(bool, Seq<char>, Seq<char>)> {
    created.reverse().map_values(|c: Seq<char>| (true, c, Seq::<char>::empty()))
}

/// Restoring the backups, latest first.
pub open spec fn backup_steps(backups: Seq<(Seq<char>, Seq<char>)>) -> Seq<
    (bool, Seq<char>, Seq<char>),
> {
    backups.reverse().map_values(|b: (Seq<char>, Seq<char>)| (false, b.0, b.1))
}

/// The steps of a rollback: the created paths removed, latest first, then
/// the backups restored, latest first.
pub open spec fn rollback_steps_of(
    created: Seq<Seq<char>>,
    backups: Seq<(Seq<char>, Seq<char>)>,
) -> Seq<(bool, Seq<char>, Seq<char>)> {
    created_steps(created) + backup_steps(backups)
}

pub open spec fn step_views(v: Seq<RollbackStep>) -> Seq<(bool, Seq<char>, Seq<char>)> {
    v.map_values(
        |s: RollbackStep|
            match s {
                RollbackStep::RemoveCreated(p) => (true, p@, Seq::<char>::empty()),
                RollbackStep::Restore { original, backup } => (false, original@, backup@),
            },
    )
}

impl RollbackState {
    pub fn new(enabled: bool) -> (r: Self)
        ensures
            r.enabled == enabled,
            r.created_paths@.len() == 0,
            r.backups@.len() == 0,
    {
        RollbackState { enabled, created_paths: Vec::new(), backups: Vec::new() }
    }

    pub fn contains_backup_for(&self, path: &str) -> (r: bool)
        ensures
            r == backed_up(pair_views(self.backups@), path@),
    {
        let ghost bs = pair_views(self.backups@);
        let p = chars_of(path);
        let mut i: usize = 0;
        while i < self.backups.len()
            invariant
                0 <= i <= self.backups.len(),
                bs == pair_views(self.backups@),
                p@ == path@,
                forall|j: int| 0 <= j < i ==> (#[trigger] bs[j]).0 != path@,
            decreases self.backups.len() - i,
        {
            assert(bs[i as int] == (self.backups@[i as int].0@, self.backups@[i as int].1@));
            if crate::text::eq_chars(&chars_of(self.backups[i].0.as_str()), &p) {
                return true;
            }
            i = i + 1;
        }
        false
    }

    /// Whether a path about to change must be backed up first: rollback is
    /// on, the path exists, and it has no backup yet.
    pub fn needs_backup(&self, path: &str, exists: bool) -> (r: bool)
        ensures
            r == (self.enabled && exists && !backed_up(pair_views(self.backups@), path@)),
    {
        self.enabled && exists && !self.contains_backup_for(path)
    }

    /// The name of the next backup under the rollback folder.
    pub fn next_backup_name(&self) -> (r: String)
        ensures
            r@ == "backup_"@ + crate::num::dec(self.backups@.len() as nat),
    {
        let mut v = chars_of("backup_");
        push_all(&mut v, &crate::num::dec_vec(self.backups.len() as u64));
        string_of(&v)
    }

    /// Records a backup that was made.
    pub fn record_backup(&mut self, original: String, backup: String)
        ensures
            final(self).enabled == old(self).enabled,
            string_views(final(self).created_paths@) == string_views(old(self).created_paths@),
            pair_views(final(self).backups@) == pair_views(old(self).backups@).push(
                (original@, backup@),
            ),
    {
        let ghost before = pair_views(self.backups@);
        let ghost o = original@;
        let ghost b = backup@;
        self.backups.push((original, backup));
        assert(pair_views(self.backups@) =~= before.push((o, b)));
    }

    /// Records a path that the install created (when rollback is on).
    pub fn record_created_path(&mut self, path: String)
        ensures
            final(self).enabled == old(self).enabled,
            pair_views(final(self).backups@) == pair_views(old(self).backups@),
            string_views(final(self).created_paths@) == if old(self).enabled {
                string_views(old(self).created_paths@).push(path@)
            } else {
                string_views(old(self).created_paths@)
            },
    {
        if !self.enabled {
            return;
        }
        let ghost before = string_views(self.created_paths@);
        let ghost p = path@;
        self.created_paths.push(path);
        assert(string_views(self.created_paths@) =~= before.push(p));
    }

    /// The steps that undo the install: none when rollback is off.
    pub fn rollback_steps(&self) -> (r: Vec<RollbackStep>)
        ensures
            step_views(r@) == if self.enabled {
                rollback_steps_of(
                    string_views(self.created_paths@),
                    pair_views(self.backups@),
                )
            } else {
                Seq::empty()
            },
    {
        let mut out: Vec<RollbackStep> = Vec::new();
        if !self.enabled {
            assert(step_views(out@) =~= Seq::empty());
            return out;
        }
        let ghost cs = string_views(self.created_paths@);
        let ghost bs = pair_views(self.backups@);
        let ghost first = created_steps(cs);
        let ghost second = backup_steps(bs);
        let mut i: usize = self.created_paths.len();
        while i > 0
            invariant
                0 <= i <= self.created_paths.len(),
                cs == string_views(self.created_paths@),
                first == created_steps(cs),
                first.len() == cs.len(),
                step_views(out@) == first.subrange(0, cs.len() - i),
            decreases i,
        {
            i = i - 1;
            let c = self.created_paths[i].clone();
            assert(c@ == cs[i as int]);
            let ghost before = step_views(out@);
            out.push(RollbackStep::RemoveCreated(c));
            assert(step_views(out@) =~= before.push((true, cs[i as int], Seq::<char>::empty())));
            assert(cs.reverse()[cs.len() - i - 1] == cs[i as int]);
            assert(first[cs.len() - i - 1] == (true, cs[i as int], Seq::<char>::empty()));
            assert(step_views(out@) =~= first.subrange(0, cs.len() - i));
        }
        let mut k: usize = self.backups.len();
        while k > 0
            invariant
                0 <= k <= self.backups.len(),
                cs == string_views(self.created_paths@),
                bs == pair_views(self.backups@),
                first.len() == cs.len(),
                second == backup_steps(bs),
                second.len() == bs.len(),
                step_views(out@) == first + second.subrange(0, bs.len() - k),
            decreases k,
        {
            k = k - 1;
            let (o, b) = &self.backups[k];
            assert(bs[k as int] == (o@, b@));
            let oc = o.clone();
            let bc = b.clone();
            let ghost before = step_views(out@);
            out.push(RollbackStep::Restore { original: oc, backup: bc });
            assert(step_views(out@) =~= before.push((false, o@, b@)));
            assert(bs.reverse()[bs.len() - k - 1] == bs[k as int]);
            assert(second[bs.len() - k - 1] == (false, o@, b@));
            assert(step_views(out@) =~= first + second.subrange(0, bs.len() - k));
        }
        assert(first.subrange(0, cs.len() as int) =~= first);
        assert(second.subrange(0, bs.len() as int) =~= second);
        out
    }
}

/// The characters a version token may start and end with.
pub open spec fn semver_char(c: char) -> bool {
    ('a' <= c && c <= 'z') || ('A' <= c && c <= 'Z') || ('0' <= c && c <= '9') || c == '.' || c
        == '-' || c == '+'
}

fn is_semver_char(c: char) -> (r: bool)
    ensures
        r == semver_char(c),
{
    ('a' <= c && c <= 'z') || ('A' <= c && c <= 'Z') || ('0' <= c && c <= '9') || c == '.' || c
        == '-' || c == '+'
}

/// `s` without the characters at its start that no version holds.
pub open spec fn trim_start_non_semver(s: Seq<char>) -> Seq<char>
    decreases s.len(),
{
    if s.len() > 0 && !semver_char(s[0]) {
        trim_start_non_semver(s.drop_first())
    } else {
        s
    }
}

/// `s` without the characters at its end that no version holds.
pub open spec fn trim_end_non_semver(s: Seq<char>) -> Seq<char>
    decreases s.len(),
{
    if s.len() > 0 && !semver_char(s.last()) {
        trim_end_non_semver(s.drop_last())
    } else {
        s
    }
}

fn trim_non_semver(s: &[char]) -> (r: Vec<char>)
    ensures
        r@ == trim_end_non_semver(trim_start_non_semver(s@)),
{
    let mut i: usize = 0;
    assert(s@.subrange(0, s@.len() as int) =~= s@);
    while i < s.len() && !is_semver_char(s[i])
        invariant
            0 <= i <= s.len(),
            trim_start_non_semver(s@) == trim_start_non_semver(s@.subrange(i as int, s@.len() as int)),
        decreases s.len() - i,
    {
        assert(s@.subrange(i as int, s@.len() as int).drop_first() =~= s@.subrange(
            i + 1,
            s@.len() as int,
        ));
        i = i + 1;
    }
    assert(i == s.len() ==> s@.subrange(i as int, s@.len() as int) =~= Seq::<char>::empty());
    let t = slice_vec(s, i, s.len());
    let mut e: usize = t.len();
    assert(t@.subrange(0, e as int) =~= t@);
    while e > 0 && !is_semver_char(t[e - 1])
        invariant
            0 <= e <= t.len(),
            trim_end_non_semver(t@) == trim_end_non_semver(t@.subrange(0, e as int)),
        decreases e,
    {
        assert(t@.subrange(0, e as int).drop_last() =~= t@.subrange(0, e - 1));
        e = e - 1;
    }
    slice_vec(&t, 0, e)
}

/// A part of a version without its leading zeros, `0` when nothing is
/// left.
pub open spec fn zero_stripped(p: Seq<char>) -> Seq<char> {
    let q = trim_start_char(p, '0');
    if q.len() == 0 {
        "0"@
    } else {
        q
    }
}

fn zero_stripped_vec(p: &[char]) -> (r: Vec<char>)
    ensures
        r@ == zero_stripped(p@),
{
    let q = trim_start_char_vec(p, '0');
    if q.len() == 0 {
        let mut z: Vec<char> = Vec::new();
        z.push('0');
        proof {
            reveal_strlit("0");
        }
        assert(z@ =~= "0"@);
        z
    } else {
        q
    }
}

/// `s` without a leading `v` or `V`.
pub open spec fn strip_v(s: Seq<char>) -> Seq<char> {
    if s.len() > 0 && (s[0] == 'v' || s[0] == 'V') {
        s.drop_first()
    } else {
        s
    }
}

/// The text before the first `c` (all of it when there is none).
pub open spec fn before_first(s: Seq<char>, c: char) -> Seq<char> {
    split_pieces(s, c)[0]
}

fn before_first_vec(s: &[char], c: char) -> (r: Vec<char>)
    ensures
        r@ == before_first(s@, c),
{
    let pieces = split_char(s, c);
    proof {
        lemma_split_pieces_nonempty(s@, c);
    }
    assert(seqs(pieces@)[0] == pieces@[0]@);
    copy_chars(&pieces[0])
}

/// The numeric parts of a dotted version, leading zeros stripped, joined by
/// dots; two to four parts of ASCII digits only.
pub open spec fn dotted_version(core: Seq<char>) -> Option<Seq<char>> {
    let parts = split_pieces(core, '.');
    if parts.len() < 2 || parts.len() > 4 {
        None
    } else if exists|i: int|
        0 <= i < parts.len() && ((#[trigger] parts[i]).len() == 0 || !all_digits(parts[i])) {
        None
    } else {
        Some(join(stripped_parts(parts), "."@))
    }
}

/// Each part without its leading zeros.
pub open spec fn stripped_parts(parts: Seq<Seq<char>>) -> Seq<Seq<char>> {
    parts.map_values(|p: Seq<char>| zero_stripped(p))
}

/// A version token as `major.minor.patch[.build]`: the text trimmed of what
/// no version holds, a leading `v` dropped, build and pre-release parts and
/// outer dots cut off; six digits read as two each, otherwise two to four
/// dotted numbers; leading zeros stripped.
pub open spec fn semver_token(raw: Seq<char>) -> Option<Seq<char>> {
    let trimmed = trim(trim_end_non_semver(trim_start_non_semver(trim(raw))));
    if trimmed.len() == 0 {
        None
    } else {
        let core = trim(trim_char(before_first(before_first(strip_v(trimmed), '+'), '-'), '.'));
        if core.len() == 0 {
            None
        } else if core.len() == 6 && all_digits(core) {
            Some(
                zero_stripped(core.subrange(0, 2)) + "."@ + zero_stripped(core.subrange(2, 4))
                    + "."@ + zero_stripped(core.subrange(4, 6)),
            )
        } else {
            dotted_version(core)
        }
    }
}

fn digits_only(s: &[char]) -> (r: bool)
    ensures
        r == all_digits(s@),
{
    let mut i: usize = 0;
    while i < s.len()
        invariant
            0 <= i <= s.len(),
            forall|j: int| 0 <= j < i ==> is_digit(#[trigger] s@[j]),
        decreases s.len() - i,
    {
        if !('0' <= s[i] && s[i] <= '9') {
            return false;
        }
        i = i + 1;
    }
    true
}

fn dotted_version_vec(core: &[char]) -> (r: Option<Vec<char>>)
    ensures
        match dotted_version(core@) {
            Some(v) => r matches Some(x) && x@ == v,
            None => r is None,
        },
{
    let parts = split_char(core, '.');
    let ghost ps = seqs(parts@);
    if parts.len() < 2 || parts.len() > 4 {
        return None;
    }
    let mut stripped: Vec<Vec<char>> = Vec::new();
    let mut i: usize = 0;
    while i < parts.len()
        invariant
            0 <= i <= parts.len(),
            ps == seqs(parts@),
            ps == split_pieces(core@, '.'),
            2 <= ps.len() <= 4,
            forall|j: int| 0 <= j < i ==> (#[trigger] ps[j]).len() > 0 && all_digits(ps[j]),
            seqs(stripped@) == stripped_parts(ps.subrange(0, i as int)),
        decreases parts.len() - i,
    {
        assert(ps[i as int] == parts@[i as int]@);
        if parts[i].len() == 0 || !digits_only(&parts[i]) {
            assert(ps[i as int].len() == 0 || !all_digits(ps[i as int]));
            assert(exists|j: int|
                0 <= j < ps.len() && ((#[trigger] ps[j]).len() == 0 || !all_digits(ps[j])));
            return None;
        }
        let z = zero_stripped_vec(&parts[i]);
        let ghost before = seqs(stripped@);
        stripped.push(z);
        assert(seqs(stripped@) =~= before.push(zero_stripped(ps[i as int])));
        assert(stripped_parts(ps.subrange(0, i + 1)) =~= stripped_parts(ps.subrange(0, i as int)).push(
            zero_stripped(ps[i as int]),
        ));
        i = i + 1;
    }
    assert(ps.subrange(0, parts@.len() as int) =~= ps);
    let mut dot: Vec<char> = Vec::new();
    dot.push('.');
    proof {
        reveal_strlit(".");
    }
    assert(dot@ =~= "."@);
    Some(join_all(&stripped, &dot))
}

pub fn normalize_semver_token(raw: &str) -> (r: Option<String>)
    ensures
        match semver_token(raw@) {
            Some(v) => r matches Some(x) && x@ == v,
            None => r is None,
        },
{
    let trimmed = trim_vec(&trim_non_semver(&trim_vec(&chars_of(raw))));
    if trimmed.len() == 0 {
        return None;
    }
    let without_v = if trimmed[0] == 'v' || trimmed[0] == 'V' {
        slice_vec(&trimmed, 1, trimmed.len())
    } else {
        copy_chars(&trimmed)
    };
    assert(without_v@ == strip_v(trimmed@)) by {
        if trimmed@[0] == 'v' || trimmed@[0] == 'V' {
            assert(trimmed@.subrange(1, trimmed@.len() as int) =~= trimmed@.drop_first());
        }
    }
    let core = trim_vec(&trim_char_vec(&before_first_vec(&before_first_vec(&without_v, '+'), '-'), '.'));
    if core.len() == 0 {
        return None;
    }
    if core.len() == 6 && digits_only(&core) {
        let mut v = zero_stripped_vec(&slice_vec(&core, 0, 2));
        v.push('.');
        push_all(&mut v, &zero_stripped_vec(&slice_vec(&core, 2, 4)));
        v.push('.');
        push_all(&mut v, &zero_stripped_vec(&slice_vec(&core, 4, 6)));
        proof {
            reveal_strlit(".");
        }
        assert(v@ =~= zero_stripped(core@.subrange(0, 2)) + "."@ + zero_stripped(
            core@.subrange(2, 4),
        ) + "."@ + zero_stripped(core@.subrange(4, 6)));
        return Some(string_of(&v));
    }
    match dotted_version_vec(&core) {
        Some(v) => Some(string_of(&v)),
        None => None,
    }
}

/// The characters that separate the words of a text searched for a
/// version.
pub open spec fn version_separator(c: char) -> bool {
    is_ws(c) || c == ',' || c == ';' || c == ':' || c == '|' || c == '(' || c == ')' || c == '['
        || c == ']' || c == '{' || c == '}' || c == '/' || c == '\\' || c == '"' || c == '\''
}

/// The version of the first word that reads as one.
pub open spec fn first_semver(words: Seq<Seq<char>>) -> Option<Seq<char>>
    decreases words.len(),
{
    if words.len() == 0 {
        None
    } else {
        match semver_token(words[0]) {
            Some(v) => Some(v),
            None => first_semver(words.drop_first()),
        }
    }
}

/// The first version found among the words of a text, or the whole text
/// read as a version.
pub open spec fn version_in_text(text: Seq<char>) -> Option<Seq<char>> {
    match first_semver(split_by(text, |c: char| version_separator(c))) {
        Some(v) => Some(v),
        None => semver_token(text),
    }
}

pub fn extract_version_from_text(text: &str) -> (r: Option<String>)
    ensures
        match version_in_text(text@) {
            Some(v) => r matches Some(x) && x@ == v,
            None => r is None,
        },
{
    let raw = chars_of(text);
    let ghost sep = |c: char| version_separator(c);
    let mut pieces: Vec<Vec<char>> = Vec::new();
    let mut cur: Vec<char> = Vec::new();
    let mut i: usize = 0;
    while i < raw.len()
        invariant
            0 <= i <= raw.len(),
            raw@ == text@,
            sep == (|c: char| version_separator(c)),
            seqs(pieces@).push(cur@) == split_by(raw@.subrange(0, i as int), sep),
        decreases raw.len() - i,
    {
        let ghost prev = raw@.subrange(0, i as int);
        assert(raw@.subrange(0, i + 1).drop_last() =~= prev);
        assert(raw@.subrange(0, i + 1).last() == raw@[i as int]);
        let ghost old_p = seqs(pieces@);
        let ghost old_c = cur@;
        let c = raw[i];
        if is_ws_char(c) || c == ',' || c == ';' || c == ':' || c == '|' || c == '(' || c == ')'
            || c == '[' || c == ']' || c == '{' || c == '}' || c == '/' || c == '\\' || c == '"'
            || c == '\'' {
            pieces.push(cur);
            cur = Vec::new();
            assert(seqs(pieces@) =~= old_p.push(old_c));
            assert(seqs(pieces@).push(cur@) =~= split_by(prev, sep).push(Seq::empty()));
        } else {
            cur.push(c);
            assert(seqs(pieces@).push(cur@) =~= old_p.push(old_c).update(
                old_p.len() as int,
                old_c.push(c),
            ));
        }
        i = i + 1;
    }
    assert(raw@.subrange(0, raw@.len() as int) =~= raw@);
    let ghost old_p = seqs(pieces@);
    let ghost old_c = cur@;
    pieces.push(cur);
    assert(seqs(pieces@) =~= old_p.push(old_c));
    let ghost ws = seqs(pieces@);
    assert(ws.subrange(0, ws.len() as int) =~= ws);
    let mut k: usize = 0;
    while k < pieces.len()
        invariant
            0 <= k <= pieces.len(),
            ws == seqs(pieces@),
            ws == split_by(text@, |c: char| version_separator(c)),
            first_semver(ws) == first_semver(ws.subrange(k as int, ws.len() as int)),
        decreases pieces.len() - k,
    {
        let ghost rest = ws.subrange(k as int, ws.len() as int);
        assert(rest[0] == pieces@[k as int]@);
        assert(rest.drop_first() =~= ws.subrange(k + 1, ws.len() as int));
        let w = string_of(&pieces[k]);
        match normalize_semver_token(w.as_str()) {
            Some(v) => {
                assert(first_semver(rest) == semver_token(rest[0]));
                return Some(v);
            },
            None => {},
        }
        k = k + 1;
    }
    assert(ws.subrange(pieces@.len() as int, ws.len() as int) =~= Seq::<Seq<char>>::empty());
    normalize_semver_token(text)
}

/// The decimal text of a signed integer, as `format!("{}")` writes it.
pub open spec fn dec_int(n: int) -> Seq<char> {
    if n < 0 {
        "-"@ + dec((-n) as nat)
    } else {
        dec(n as nat)
    }
}

pub fn dec_i64(n: i64) -> (r: Vec<char>)
    ensures
        r@ == dec_int(n as int),
{
    if n < 0 {
        let m: u64 = if n == i64::MIN {
            9223372036854775808u64
        } else {
            (-n) as u64
        };
        let mut v: Vec<char> = Vec::new();
        v.push('-');
        push_all(&mut v, &dec_vec(m));
        proof {
            reveal_strlit("-");
        }
        assert(v@ =~= "-"@ + dec((-n) as nat));
        v
    } else {
        dec_vec(n as u64)
    }
}

/// A snapshot of a product as the server described it, reduced to what
/// the update logic reads: its type, its numbers (`number` and whether
/// that key is there, `mNumber`, `package_version`, `packageVersion`), its
/// short and full descriptions, and the text of its file-list link.
#[derive(Debug)]
pub struct XSnapshot {
    pub kind: Option<String>,
    pub has_number_key: bool,
    pub number: Option<i64>,
    pub m_number: Option<i64>,
    pub package_version: Option<i64>,
    pub package_version_alt: Option<i64>,
    pub short_desc: Option<String>,
    pub full_desc: Option<String>,
    pub files_link: Option<String>,
}

/// A snapshot under its key, in a product that lists its snapshots by
/// type.
#[derive(Debug)]
pub struct XKeyedSnapshot {
    pub key: String,
    pub snapshot: XSnapshot,
}

/// A product: its name, and its snapshots keyed by type (in key order)
/// and/or as a list, as the server sent them.
#[derive(Debug)]
pub struct XProduct {
    pub name: Option<String>,
    pub snapshot_map: Option<Vec<XKeyedSnapshot>>,
    pub snapshot_list: Option<Vec<XSnapshot>>,
}

/// A text trimmed, when something is left.
pub open spec fn nonempty_trimmed(s: Option<String>) -> Option<Seq<char>> {
    match s {
        Some(t) => if trim(t@).len() > 0 {
            Some(trim(t@))
        } else {
            None
        },
        None => None,
    }
}

fn nonempty_trimmed_vec(s: &Option<String>) -> (r: Option<Vec<char>>)
    ensures
        match nonempty_trimmed(*s) {
            Some(t) => r matches Some(x) && x@ == t,
            None => r is None,
        },
{
    match s {
        Some(t) => {
            let v = trim_vec(&chars_of(t.as_str()));
            if v.len() > 0 {
                Some(v)
            } else {
                None
            }
        },
        None => None,
    }
}

/// The name a product is shown with.
pub open spec fn product_name_of(p: XProduct) -> Seq<char> {
    match nonempty_trimmed(p.name) {
        Some(n) => n,
        None => "<unnamed-product>"@,
    }
}

pub fn product_name(product: &XProduct) -> (r: String)
    ensures
        r@ == product_name_of(*product),
{
    match nonempty_trimmed_vec(&product.name) {
        Some(n) => string_of(&n),
        None => string_of(&chars_of("<unnamed-product>")),
    }
}

/// The first line of a description that is not blank, does not start
/// with `-` and holds a version: that version.
pub open spec fn first_line_version(ls: Seq<Seq<char>>) -> Option<Seq<char>>
    decreases ls.len(),
{
    if ls.len() == 0 {
        None
    } else {
        let t = trim(ls[0]);
        let here = if t.len() == 0 || starts_with(t, "-"@) {
            None
        } else {
            version_in_text(t)
        };
        match here {
            Some(v) => Some(v),
            None => first_line_version(ls.drop_first()),
        }
    }
}

/// The version a snapshot is shown with: the one in its short
/// description, else the first one in the lines of its full description.
pub open spec fn snapshot_display(s: XSnapshot) -> Option<Seq<char>> {
    let from_short = match nonempty_trimmed(s.short_desc) {
        Some(t) => version_in_text(t),
        None => None,
    };
    match from_short {
        Some(v) => Some(v),
        None => first_line_version(
            lines(
                match s.full_desc {
                    Some(f) => f@,
                    None => Seq::empty(),
                },
            ),
        ),
    }
}

pub fn snapshot_display_version(snapshot: &XSnapshot) -> (r: Option<String>)
    ensures
        match snapshot_display(*snapshot) {
            Some(v) => r matches Some(x) && x@ == v,
            None => r is None,
        },
{
    match nonempty_trimmed_vec(&snapshot.short_desc) {
        Some(t) => {
            let ts = string_of(&t);
            match extract_version_from_text(ts.as_str()) {
                Some(v) => {
                    return Some(v);
                },
                None => {},
            }
        },
        None => {},
    }
    let full = match &snapshot.full_desc {
        Some(f) => chars_of(f.as_str()),
        None => Vec::new(),
    };
    let ls = lines_of(&full);
    let ghost all = seqs(ls@);
    let dash = chars_of("-");
    let mut k: usize = 0;
    assert(all.subrange(0, all.len() as int) =~= all);
    while k < ls.len()
        invariant
            0 <= k <= ls.len(),
            all == seqs(ls@),
            all == lines(
                match snapshot.full_desc {
                    Some(f) => f@,
                    None => Seq::empty(),
                },
            ),
            (match nonempty_trimmed(snapshot.short_desc) {
                Some(t) => version_in_text(t),
                None => None,
            }) is None,
            dash@ == "-"@,
            first_line_version(all) == first_line_version(all.subrange(k as int, all.len() as int)),
        decreases ls.len() - k,
    {
        let ghost rest = all.subrange(k as int, all.len() as int);
        assert(rest[0] == ls@[k as int]@);
        assert(rest.drop_first() =~= all.subrange(k + 1, all.len() as int));
        let t = trim_vec(&ls[k]);
        if t.len() > 0 && !starts_with_exec(&t, &dash) {
            let ts = string_of(&t);
            match extract_version_from_text(ts.as_str()) {
                Some(v) => {
                    return Some(v);
                },
                None => {},
            }
        }
        k = k + 1;
    }
    assert(all.subrange(ls@.len() as int, all.len() as int) =~= Seq::<Seq<char>>::empty());
    None
}

/// The changelog of a snapshot: its full description, trimmed, when not
/// blank.
pub fn extract_snapshot_changelog(snapshot: &XSnapshot) -> (r: Option<String>)
    ensures
        match nonempty_trimmed(snapshot.full_desc) {
            Some(t) => r matches Some(x) && x@ == t,
            None => r is None,
        },
{
    match nonempty_trimmed_vec(&snapshot.full_desc) {
        Some(t) => Some(string_of(&t)),
        None => None,
    }
}

/// The revision number of a snapshot: `number` (or `mNumber` when there is
/// no `number`), else `package_version`, else `packageVersion`.
pub open spec fn snapshot_revision(s: XSnapshot) -> Option<i64> {
    let first = if s.has_number_key {
        s.number
    } else {
        s.m_number
    };
    match first {
        Some(n) => Some(n),
        None => match s.package_version {
            Some(n) => Some(n),
            None => s.package_version_alt,
        },
    }
}

pub fn snapshot_numeric_revision(snapshot: &XSnapshot) -> (r: Option<i64>)
    ensures
        r == snapshot_revision(*snapshot),
{
    let first = if snapshot.has_number_key {
        snapshot.number
    } else {
        snapshot.m_number
    };
    match first {
        Some(n) => Some(n),
        None => match snapshot.package_version {
            Some(n) => Some(n),
            None => snapshot.package_version_alt,
        },
    }
}

/// The label of a snapshot: its display version, else its type (or the
/// requested type) and number as `type#number`.
pub open spec fn snapshot_label(snapshot_type: Seq<char>, s: XSnapshot) -> Option<Seq<char>> {
    match snapshot_display(s) {
        Some(v) => Some(v),
        None => {
            let kind = match nonempty_trimmed(s.kind) {
                Some(k) => lowercase(k),
                None => lowercase(snapshot_type),
            };
            let n = match s.number {
                Some(n) => Some(n),
                None => match s.m_number {
                    Some(n) => Some(n),
                    None => match s.package_version {
                        Some(n) => Some(n),
                        None => s.package_version_alt,
                    },
                },
            };
            match n {
                Some(n) => Some(kind + "#"@ + dec_int(n as int)),
                None => None,
            }
        },
    }
}

pub fn snapshot_version_label(snapshot_type: &str, snapshot: &XSnapshot) -> (r: Option<String>)
    ensures
        match snapshot_label(snapshot_type@, *snapshot) {
            Some(v) => r matches Some(x) && x@ == v,
            None => r is None,
        },
{
    match snapshot_display_version(snapshot) {
        Some(v) => {
            return Some(v);
        },
        None => {},
    }
    let kind = match nonempty_trimmed_vec(&snapshot.kind) {
        Some(k) => to_lowercase_chars(&k),
        None => to_lowercase_chars(&chars_of(snapshot_type)),
    };
    let n = match snapshot.number {
        Some(n) => Some(n),
        None => match snapshot.m_number {
            Some(n) => Some(n),
            None => match snapshot.package_version {
                Some(n) => Some(n),
                None => snapshot.package_version_alt,
            },
        },
    };
    match n {
        Some(n) => {
            let mut v = kind;
            v.push('#');
            push_all(&mut v, &dec_i64(n));
            proof {
                reveal_strlit("#");
            }
            assert(v@ =~= kind@ + "#"@ + dec_int(n as int));
            Some(string_of(&v))
        },
        None => None,
    }
}

/// The first snapshot from `from` on whose key is `k`.
pub open spec fn key_position(m: Seq<XKeyedSnapshot>, k: Seq<char>, from: int) -> Option<int>
    decreases m.len() - from,
{
    if from < 0 || from >= m.len() {
        None
    } else if m[from].key@ == k {
        Some(from)
    } else {
        key_position(m, k, from + 1)
    }
}

/// A snapshot of the given type (its type trimmed, compared without ASCII
/// case).
pub open spec fn has_type(s: XSnapshot, wanted: Seq<char>) -> bool {
    s.kind matches Some(k) && eq_ignore_ascii_case(trim(k@), wanted)
}

/// The first snapshot from `from` on of the given type.
pub open spec fn type_position(l: Seq<XSnapshot>, wanted: Seq<char>, from: int) -> Option<int>
    decreases l.len() - from,
{
    if from < 0 || from >= l.len() {
        None
    } else if has_type(l[from], wanted) {
        Some(from)
    } else {
        type_position(l, wanted, from + 1)
    }
}

/// The snapshot to update from. Keyed snapshots: the one under the
/// preferred type (trimmed, lower-cased), else under `release`, else the
/// first. Listed snapshots: the first of the preferred type, else of type
/// `release`, else the first when a fallback is allowed.
pub open spec fn selected_snapshot(p: XProduct, preferred: Seq<char>, allow_fallback: bool) -> Option<
    XSnapshot,
> {
    let pref = lowercase(trim(preferred));
    match p.snapshot_map {
        Some(m) => match key_position(m@, pref, 0) {
            Some(i) => Some(m@[i].snapshot),
            None => match key_position(m@, "release"@, 0) {
                Some(i) => Some(m@[i].snapshot),
                None => if m@.len() > 0 {
                    Some(m@[0].snapshot)
                } else {
                    None
                },
            },
        },
        None => match p.snapshot_list {
            None => None,
            Some(l) => if l@.len() == 0 {
                None
            } else {
                match type_position(l@, pref, 0) {
                    Some(i) => Some(l@[i]),
                    None => match type_position(l@, "release"@, 0) {
                        Some(i) => Some(l@[i]),
                        None => if allow_fallback {
                            Some(l@[0])
                        } else {
                            None
                        },
                    },
                }
            },
        },
    }
}

proof fn lemma_key_position(m: Seq<XKeyedSnapshot>, k: Seq<char>, from: int)
    ensures
        key_position(m, k, from) matches Some(i) ==> from <= i < m.len(),
    decreases m.len() - from,
{
    if 0 <= from < m.len() && m[from].key@ != k {
        lemma_key_position(m, k, from + 1);
    }
}

proof fn lemma_type_position(l: Seq<XSnapshot>, wanted: Seq<char>, from: int)
    ensures
        type_position(l, wanted, from) matches Some(i) ==> from <= i < l.len(),
    decreases l.len() - from,
{
    if 0 <= from < l.len() && !has_type(l[from], wanted) {
        lemma_type_position(l, wanted, from + 1);
    }
}

fn find_key(m: &Vec<XKeyedSnapshot>, k: &[char]) -> (r: Option<usize>)
    ensures
        r matches Some(i) ==> i < m@.len(),
        match r {
            Some(i) => key_position(m@, k@, 0) == Some(i as int),
            None => key_position(m@, k@, 0) is None,
        },
{
    proof {
        lemma_key_position(m@, k@, 0);
    }
    let mut i: usize = 0;
    while i < m.len()
        invariant
            0 <= i <= m.len(),
            key_position(m@, k@, 0) == key_position(m@, k@, i as int),
        decreases m.len() - i,
    {
        if crate::text::eq_chars(&chars_of(m[i].key.as_str()), k) {
            return Some(i);
        }
        i = i + 1;
    }
    None
}

fn find_type(l: &Vec<XSnapshot>, wanted: &[char]) -> (r: Option<usize>)
    ensures
        r matches Some(i) ==> i < l@.len(),
        match r {
            Some(i) => type_position(l@, wanted@, 0) == Some(i as int),
            None => type_position(l@, wanted@, 0) is None,
        },
{
    proof {
        lemma_type_position(l@, wanted@, 0);
    }
    let mut i: usize = 0;
    while i < l.len()
        invariant
            0 <= i <= l.len(),
            type_position(l@, wanted@, 0) == type_position(l@, wanted@, i as int),
        decreases l.len() - i,
    {
        let hit = match &l[i].kind {
            Some(k) => eq_ignore_ascii_case_exec(&trim_vec(&chars_of(k.as_str())), wanted),
            None => false,
        };
        if hit {
            return Some(i);
        }
        i = i + 1;
    }
    None
}

pub fn select_snapshot<'a>(product: &'a XProduct, preferred: &str, allow_fallback: bool) -> (r:
    Option<&'a XSnapshot>)
    ensures
        match selected_snapshot(*product, preferred@, allow_fallback) {
            Some(s) => r matches Some(x) && *x == s,
            None => r is None,
        },
{
    let pref = to_lowercase_chars(&trim_vec(&chars_of(preferred)));
    let release = chars_of("release");
    match &product.snapshot_map {
        Some(m) => {
            assert(product.snapshot_map == Some(*m));
            match find_key(m, &pref) {
                Some(i) => {
                    let x = &m[i];
                    assert(*x == m@[i as int]);
                    return Some(&x.snapshot);
                },
                None => {},
            }
            match find_key(m, &release) {
                Some(i) => {
                    let x = &m[i];
                    assert(*x == m@[i as int]);
                    return Some(&x.snapshot);
                },
                None => {},
            }
            if m.len() > 0 {
                Some(&m[0].snapshot)
            } else {
                None
            }
        },
        None => match &product.snapshot_list {
            None => None,
            Some(l) => {
                if l.len() == 0 {
                    return None;
                }
                match find_type(l, &pref) {
                    Some(i) => {
                        return Some(&l[i]);
                    },
                    None => {},
                }
                match find_type(l, &release) {
                    Some(i) => {
                        return Some(&l[i]);
                    },
                    None => {},
                }
                if allow_fallback {
                    Some(&l[0])
                } else {
                    None
                }
            },
        },
    }
}

/// The channel a snapshot type belongs to: `release` and `stable` are
/// `stable`; `beta` and `alpha` are themselves; other types belong to none.
pub open spec fn channel_of_type(kind: Seq<char>) -> Option<Seq<char>> {
    let n = lowercase(trim(kind));
    if n == "release"@ || n == "stable"@ {
        Some("stable"@)
    } else if n == "beta"@ {
        Some("beta"@)
    } else if n == "alpha"@ {
        Some("alpha"@)
    } else {
        None
    }
}

/// The code of a channel name: 0 for stable, 1 for beta, 2 for alpha.
pub open spec fn channel_name(code: int) -> Seq<char> {
    if code == 0 {
        "stable"@
    } else if code == 1 {
        "beta"@
    } else {
        "alpha"@
    }
}

/// A listed snapshot of the given channel.
pub open spec fn list_offers(l: Seq<XSnapshot>, code: int) -> bool {
    exists|j: int|
        0 <= j < l.len() && (#[trigger] l[j]).kind is Some && channel_of_type(l[j].kind->0@) == Some(
            channel_name(code),
        )
}

/// Some product lists a snapshot of the given channel.
pub open spec fn offers_channel(ps: Seq<XProduct>, code: int) -> bool {
    exists|i: int|
        0 <= i < ps.len() && (#[trigger] ps[i]).snapshot_list is Some && list_offers(
            ps[i].snapshot_list->0@,
            code,
        )
}

/// The channels offered, in the order stable, beta, alpha.
pub open spec fn channels_offered(ps: Seq<XProduct>) -> Seq<Seq<char>> {
    let a = if offers_channel(ps, 0) {
        seq!["stable"@]
    } else {
        Seq::empty()
    };
    let b = if offers_channel(ps, 1) {
        a.push("beta"@)
    } else {
        a
    };
    if offers_channel(ps, 2) {
        b.push("alpha"@)
    } else {
        b
    }
}

fn channel_code(kind: &str) -> (r: u8)
    ensures
        r <= 3,
        forall|c: int|
            0 <= c < 3 ==> (r == c <==> channel_of_type(kind@) == Some(#[trigger] channel_name(c))),
{
    let n = to_lowercase_chars(&trim_vec(&chars_of(kind)));
    proof {
        reveal_strlit("release");
        reveal_strlit("stable");
        reveal_strlit("beta");
        reveal_strlit("alpha");
        assert(channel_name(0) == "stable"@);
        assert(channel_name(1) == "beta"@);
        assert(channel_name(2) == "alpha"@);
    }
    if eq_str(&n, "release") || eq_str(&n, "stable") {
        0
    } else if eq_str(&n, "beta") {
        1
    } else if eq_str(&n, "alpha") {
        2
    } else {
        3
    }
}

fn list_offers_exec(l: &Vec<XSnapshot>, code: u8) -> (r: bool)
    requires
        code < 3,
    ensures
        r == list_offers(l@, code as int),
{
    let mut j: usize = 0;
    while j < l.len()
        invariant
            0 <= j <= l.len(),
            code < 3,
            forall|a: int|
                0 <= a < j ==> !((#[trigger] l@[a]).kind is Some && channel_of_type(l@[a].kind->0@)
                    == Some(channel_name(code as int))),
        decreases l.len() - j,
    {
        match &l[j].kind {
            Some(k) => {
                if channel_code(k.as_str()) == code {
                    return true;
                }
            },
            None => {},
        }
        j = j + 1;
    }
    false
}

fn offers_channel_exec(products: &[XProduct], code: u8) -> (r: bool)
    requires
        code < 3,
    ensures
        r == offers_channel(products@, code as int),
{
    let mut i: usize = 0;
    while i < products.len()
        invariant
            0 <= i <= products.len(),
            code < 3,
            forall|a: int|
                0 <= a < i ==> !((#[trigger] products@[a]).snapshot_list is Some && list_offers(
                    products@[a].snapshot_list->0@,
                    code as int,
                )),
        decreases products.len() - i,
    {
        match &products[i].snapshot_list {
            Some(l) => {
                if list_offers_exec(l, code) {
                    return true;
                }
            },
            None => {},
        }
        i = i + 1;
    }
    false
}

pub fn collect_available_channels(products: &[XProduct]) -> (r: Vec<String>)
    ensures
        string_views(r@) == channels_offered(products@),
{
    let mut out: Vec<String> = Vec::new();
    if offers_channel_exec(products, 0) {
        out.push(string_of(&chars_of("stable")));
    }
    let ghost a = string_views(out@);
    if offers_channel_exec(products, 1) {
        out.push(string_of(&chars_of("beta")));
        assert(string_views(out@) =~= a.push("beta"@));
    }
    let ghost b = string_views(out@);
    if offers_channel_exec(products, 2) {
        out.push(string_of(&chars_of("alpha")));
        assert(string_views(out@) =~= b.push("alpha"@));
    }
    assert(string_views(out@) =~= channels_offered(products@));
    out
}

/// The display version of the first listed snapshot with the revision that
/// has one.
pub open spec fn revision_in_list(l: Seq<XSnapshot>, rev: i64) -> Option<Seq<char>>
    decreases l.len(),
{
    if l.len() == 0 {
        None
    } else if snapshot_revision(l[0]) == Some(rev) && snapshot_display(l[0]) is Some {
        snapshot_display(l[0])
    } else {
        revision_in_list(l.drop_first(), rev)
    }
}

/// The same over keyed snapshots, in key order.
pub open spec fn revision_in_keyed(m: Seq<XKeyedSnapshot>, rev: i64) -> Option<Seq<char>>
    decreases m.len(),
{
    if m.len() == 0 {
        None
    } else if snapshot_revision(m[0].snapshot) == Some(rev) && snapshot_display(m[0].snapshot) is Some {
        snapshot_display(m[0].snapshot)
    } else {
        revision_in_keyed(m.drop_first(), rev)
    }
}

/// The display version of a snapshot with the revision: product by
/// product, its listed snapshots first, then its keyed ones.
pub open spec fn revision_in_products(ps: Seq<XProduct>, rev: i64) -> Option<Seq<char>>
    decreases ps.len(),
{
    if ps.len() == 0 {
        None
    } else {
        let a = match ps[0].snapshot_list {
            Some(l) => revision_in_list(l@, rev),
            None => None,
        };
        let b = match ps[0].snapshot_map {
            Some(m) => revision_in_keyed(m@, rev),
            None => None,
        };
        if a is Some {
            a
        } else if b is Some {
            b
        } else {
            revision_in_products(ps.drop_first(), rev)
        }
    }
}

/// The version of the snapshot with a revision (positive revisions only).
pub open spec fn version_of_revision(ps: Seq<XProduct>, rev: i64) -> Option<Seq<char>> {
    if rev <= 0 {
        None
    } else {
        revision_in_products(ps, rev)
    }
}

fn revision_in_list_exec(l: &Vec<XSnapshot>, rev: i64) -> (r: Option<String>)
    ensures
        match revision_in_list(l@, rev) {
            Some(v) => r matches Some(x) && x@ == v,
            None => r is None,
        },
{
    let mut i: usize = 0;
    assert(l@.subrange(0, l@.len() as int) =~= l@);
    while i < l.len()
        invariant
            0 <= i <= l.len(),
            revision_in_list(l@, rev) == revision_in_list(l@.subrange(i as int, l@.len() as int), rev),
        decreases l.len() - i,
    {
        let ghost rest = l@.subrange(i as int, l@.len() as int);
        assert(rest[0] == l@[i as int]);
        assert(rest.drop_first() =~= l@.subrange(i + 1, l@.len() as int));
        if snapshot_numeric_revision(&l[i]) == Some(rev) {
            match snapshot_display_version(&l[i]) {
                Some(v) => {
                    return Some(v);
                },
                None => {},
            }
        }
        i = i + 1;
    }
    assert(l@.subrange(i as int, l@.len() as int) =~= Seq::<XSnapshot>::empty());
    None
}

fn revision_in_keyed_exec(m: &Vec<XKeyedSnapshot>, rev: i64) -> (r: Option<String>)
    ensures
        match revision_in_keyed(m@, rev) {
            Some(v) => r matches Some(x) && x@ == v,
            None => r is None,
        },
{
    let mut i: usize = 0;
    assert(m@.subrange(0, m@.len() as int) =~= m@);
    while i < m.len()
        invariant
            0 <= i <= m.len(),
            revision_in_keyed(m@, rev) == revision_in_keyed(m@.subrange(i as int, m@.len() as int), rev),
        decreases m.len() - i,
    {
        let ghost rest = m@.subrange(i as int, m@.len() as int);
        assert(rest[0] == m@[i as int]);
        assert(rest.drop_first() =~= m@.subrange(i + 1, m@.len() as int));
        if snapshot_numeric_revision(&m[i].snapshot) == Some(rev) {
            match snapshot_display_version(&m[i].snapshot) {
                Some(v) => {
                    return Some(v);
                },
                None => {},
            }
        }
        i = i + 1;
    }
    assert(m@.subrange(i as int, m@.len() as int) =~= Seq::<XKeyedSnapshot>::empty());
    None
}

pub fn find_snapshot_version_by_revision(products: &[XProduct], revision: i64) -> (r: Option<String>)
    ensures
        match version_of_revision(products@, revision) {
            Some(v) => r matches Some(x) && x@ == v,
            None => r is None,
        },
{
    if revision <= 0 {
        return None;
    }
    let ghost ps = products@;
    let mut i: usize = 0;
    assert(ps.subrange(0, ps.len() as int) =~= ps);
    while i < products.len()
        invariant
            0 <= i <= products.len(),
            ps == products@,
            revision > 0,
            version_of_revision(ps, revision) == revision_in_products(
                ps.subrange(i as int, ps.len() as int),
                revision,
            ),
        decreases products.len() - i,
    {
        let ghost rest = ps.subrange(i as int, ps.len() as int);
        assert(rest[0] == ps[i as int]);
        assert(rest.drop_first() =~= ps.subrange(i + 1, ps.len() as int));
        match &products[i].snapshot_list {
            Some(l) => match revision_in_list_exec(l, revision) {
                Some(v) => {
                    return Some(v);
                },
                None => {},
            },
            None => {},
        }
        match &products[i].snapshot_map {
            Some(m) => match revision_in_keyed_exec(m, revision) {
                Some(v) => {
                    return Some(v);
                },
                None => {},
            },
            None => {},
        }
        i = i + 1;
    }
    assert(ps.subrange(i as int, ps.len() as int) =~= Seq::<XProduct>::empty());
    None
}

/// The version found in a label, or the label itself.
pub open spec fn label_version(t: Seq<char>) -> Seq<char> {
    match version_in_text(t) {
        Some(v) => v,
        None => t,
    }
}

/// The local version shown for an add-on: the version in the profile's
/// label (or the label); else the version of the snapshot with the
/// profile's package revision; else the version in the fallback version
/// text (or that text).
pub open spec fn local_version_label(
    label: Option<String>,
    package_version: Option<i64>,
    ps: Seq<XProduct>,
    fallback: Option<String>,
) -> Option<Seq<char>> {
    match nonempty_trimmed(label) {
        Some(t) => Some(label_version(t)),
        None => {
            let mapped = match package_version {
                Some(v) => version_of_revision(ps, v),
                None => None,
            };
            match mapped {
                Some(m) => Some(m),
                None => match nonempty_trimmed(fallback) {
                    Some(t) => Some(label_version(t)),
                    None => None,
                },
            }
        },
    }
}

fn label_version_exec(t: &[char]) -> (r: String)
    ensures
        r@ == label_version(t@),
{
    let s = string_of(t);
    match extract_version_from_text(s.as_str()) {
        Some(v) => v,
        None => s,
    }
}

/// The local version of an add-on from its profile, the selected products
/// and the version text found elsewhere in its folder (`fallback`).
pub fn resolve_local_version_label(
    profile: &XUpdaterProfile,
    selected_products: &[XProduct],
    fallback_version: Option<String>,
) -> (r: Option<String>)
    ensures
        match local_version_label(
            profile.version_label,
            profile.package_version,
            selected_products@,
            fallback_version,
        ) {
            Some(v) => r matches Some(x) && x@ == v,
            None => r is None,
        },
{
    match nonempty_trimmed_vec(&profile.version_label) {
        Some(t) => {
            return Some(label_version_exec(&t));
        },
        None => {},
    }
    match profile.package_version {
        Some(v) => match find_snapshot_version_by_revision(selected_products, v) {
            Some(m) => {
                return Some(m);
            },
            None => {},
        },
        None => {},
    }
    match nonempty_trimmed_vec(&fallback_version) {
        Some(t) => Some(label_version_exec(&t)),
        None => None,
    }
}

/// A later action for a path takes the place of an earlier one when it
/// deletes, or when it replaces and the earlier one does not delete.
pub open spec fn replaces(existing: XActionKind, next: XActionKind) -> bool {
    next == XActionKind::Delete || (existing != XActionKind::Delete && next
        == XActionKind::Replace)
}

pub open spec fn action_paths(acts: Seq<ActionView>) -> Seq<Seq<char>> {
    acts.map_values(|a: ActionView| a.path)
}

/// Some action is for the path.
pub open spec fn holds_path(acts: Seq<ActionView>, k: Seq<char>) -> bool {
    exists|i: int| 0 <= i < acts.len() && (#[trigger] acts[i]).path == k
}

/// The actions as a table from path to action.
pub open spec fn action_table(acts: Seq<ActionView>) -> Map<Seq<char>, ActionView> {
    Map::new(
        |k: Seq<char>| holds_path(acts, k),
        |k: Seq<char>| acts[choose|i: int| 0 <= i < acts.len() && (#[trigger] acts[i]).path == k],
    )
}

/// The table after an action is merged into it.
pub open spec fn merged_table(t: Map<Seq<char>, ActionView>, next: ActionView) -> Map<
    Seq<char>,
    ActionView,
> {
    if !t.contains_key(next.path) || replaces(t[next.path].kind, next.kind) {
        t.insert(next.path, next)
    } else {
        t
    }
}

/// The warning a merge gives: two actions that both write a file and the
/// later one does not take the place of the earlier.
pub open spec fn merge_warning(t: Map<Seq<char>, ActionView>, next: ActionView) -> Seq<Seq<char>> {
    if t.contains_key(next.path) && !replaces(t[next.path].kind, next.kind) && next.kind
        != XActionKind::Delete && t[next.path].kind != XActionKind::Delete {
        seq!["Duplicate update action for '"@ + next.path + "' detected; keeping first one"@]
    } else {
        Seq::empty()
    }
}

/// In a list sorted by path, an action's path leads back to it.
proof fn lemma_table_at(acts: Seq<ActionView>, i: int)
    requires
        strictly_sorted(action_paths(acts)),
        0 <= i < acts.len(),
    ensures
        action_table(acts).contains_key(acts[i].path),
        action_table(acts)[acts[i].path] == acts[i],
{
    let k = acts[i].path;
    assert(holds_path(acts, k));
    let j = choose|j: int| 0 <= j < acts.len() && (#[trigger] acts[j]).path == k;
    if j != i {
        let ps = action_paths(acts);
        assert(ps[i] == k && ps[j] == k);
        lemma_seq_less_total(k, k);
        if i < j {
            assert(seq_less(ps[i], ps[j]));
        } else {
            assert(seq_less(ps[j], ps[i]));
        }
    }
}

fn find_path_position(list: &Vec<XAction>, p: &[char]) -> (r: usize)
    requires
        strictly_sorted(action_paths(action_views(list@))),
    ensures
        r <= list@.len(),
        forall|a: int| 0 <= a < r ==> seq_less(#[trigger] list@[a].rel_path@, p@),
        r < list@.len() ==> !seq_less(list@[r as int].rel_path@, p@),
{
    let mut j: usize = 0;
    while j < list.len() && chars_less(&chars_of(list[j].rel_path.as_str()), p)
        invariant
            0 <= j <= list.len(),
            forall|a: int| 0 <= a < j ==> seq_less(#[trigger] list@[a].rel_path@, p@),
        decreases list.len() - j,
    {
        j = j + 1;
    }
    j
}

/// Merges an action into the list of actions, kept sorted by path with one
/// action per path: a new path is inserted in order; for a known path the
/// later action takes the place of the earlier one when it deletes, or when
/// it replaces and the earlier one does not delete; two writes of the same
/// file keep the first and give a warning.
pub fn merge_action(list: &mut Vec<XAction>, next: XAction, warnings: &mut Vec<String>)
    requires
        strictly_sorted(action_paths(action_views(old(list)@))),
    ensures
        strictly_sorted(action_paths(action_views(final(list)@))),
        action_table(action_views(final(list)@)) == merged_table(
            action_table(action_views(old(list)@)),
            next.view(),
        ),
        string_views(final(warnings)@) == string_views(old(warnings)@) + merge_warning(
            action_table(action_views(old(list)@)),
            next.view(),
        ),
{
    let ghost s = action_views(list@);
    let ghost ps = action_paths(s);
    let ghost t = action_table(s);
    let ghost nv = next.view();
    let ghost w0 = string_views(warnings@);
    let p = chars_of(next.rel_path.as_str());
    let j = find_path_position(list, &p);
    assert forall|a: int| 0 <= a < j implies seq_less(#[trigger] ps[a], nv.path) by {
        assert(ps[a] == list@[a].rel_path@);
    }
    if j < list.len() && crate::text::eq_chars(&chars_of(list[j].rel_path.as_str()), &p) {
        assert(s[j as int].path == nv.path);
        proof {
            lemma_table_at(s, j as int);
        }
        let existing = list[j].kind;
        if next.kind == XActionKind::Delete || (existing != XActionKind::Delete && next.kind
            == XActionKind::Replace) {
            list.set(j, next);
            let ghost s2 = action_views(list@);
            assert(s2 =~= s.update(j as int, nv));
            assert(action_paths(s2) =~= ps);
            assert(action_table(s2) =~= t.insert(nv.path, nv)) by {
                assert forall|k: Seq<char>| #[trigger] holds_path(s2, k) <==> (holds_path(s, k)
                    || k == nv.path) by {
                    if holds_path(s, k) {
                        let a = choose|a: int| 0 <= a < s.len() && (#[trigger] s[a]).path == k;
                        assert(s2[a].path == k);
                    }
                    if holds_path(s2, k) {
                        let a = choose|a: int| 0 <= a < s2.len() && (#[trigger] s2[a]).path == k;
                        assert(s[a].path == k);
                    }
                    if k == nv.path {
                        assert(s2[j as int].path == k);
                    }
                }
                assert forall|k: Seq<char>| #[trigger] action_table(s2).contains_key(k) implies action_table(
                    s2,
                )[k] == t.insert(nv.path, nv)[k] by {
                    let a = choose|a: int| 0 <= a < s2.len() && (#[trigger] s2[a]).path == k;
                    lemma_table_at(s2, a);
                    if a != j {
                        assert(s[a] == s2[a]);
                        lemma_table_at(s, a);
                        lemma_seq_less_total(ps[a], ps[a]);
                        if a < j {
                            assert(seq_less(ps[a], ps[j as int]));
                        } else {
                            assert(seq_less(ps[j as int], ps[a]));
                        }
                        assert(k != nv.path);
                    }
                }
            }
            assert(string_views(warnings@) =~= w0 + merge_warning(t, nv));
        } else {
            if next.kind != XActionKind::Delete && existing != XActionKind::Delete {
                let mut m = chars_of("Duplicate update action for '");
                push_all(&mut m, &p);
                push_all(&mut m, &chars_of("' detected; keeping first one"));
                let ghost before = string_views(warnings@);
                warnings.push(string_of(&m));
                assert(string_views(warnings@) =~= before.push(
                    "Duplicate update action for '"@ + nv.path + "' detected; keeping first one"@,
                ));
            }
            assert(string_views(warnings@) =~= w0 + merge_warning(t, nv));
        }
    } else {
        proof {
            if j < s.len() {
                assert(ps[j as int] == list@[j as int].rel_path@);
                lemma_seq_less_total(ps[j as int], nv.path);
                assert(seq_less(nv.path, ps[j as int]));
            }
            assert forall|b: int| j <= b < s.len() implies seq_less(nv.path, #[trigger] ps[b]) by {
                if b > j {
                    lemma_seq_less_trans(nv.path, ps[j as int], ps[b]);
                }
            }
            assert(!t.contains_key(nv.path)) by {
                if holds_path(s, nv.path) {
                    let a = choose|a: int| 0 <= a < s.len() && (#[trigger] s[a]).path == nv.path;
                    assert(ps[a] == nv.path);
                    lemma_seq_less_total(nv.path, nv.path);
                }
            }
        }
        list.insert(j, next);
        let ghost s2 = action_views(list@);
        assert(s2 =~= s.subrange(0, j as int).push(nv) + s.subrange(j as int, s.len() as int));
        let ghost ps2 = action_paths(s2);
        assert(ps2 =~= ps.subrange(0, j as int).push(nv.path) + ps.subrange(j as int, ps.len() as int));
        assert forall|a: int, b: int| 0 <= a < b < ps2.len() implies seq_less(
            #[trigger] ps2[a],
            #[trigger] ps2[b],
        ) by {
            if b < j {
                assert(ps2[a] == ps[a] && ps2[b] == ps[b]);
            } else if b == j {
                assert(ps2[a] == ps[a]);
            } else if a < j {
                assert(ps2[a] == ps[a] && ps2[b] == ps[b - 1]);
                lemma_seq_less_trans(ps[a], nv.path, ps[b - 1]);
            } else if a == j {
                assert(ps2[b] == ps[b - 1]);
            } else {
                assert(ps2[a] == ps[a - 1] && ps2[b] == ps[b - 1]);
            }
        }
        assert(action_table(s2) =~= t.insert(nv.path, nv)) by {
            assert forall|k: Seq<char>| #[trigger] holds_path(s2, k) <==> (holds_path(s, k) || k
                == nv.path) by {
                if holds_path(s, k) {
                    let a = choose|a: int| 0 <= a < s.len() && (#[trigger] s[a]).path == k;
                    if a < j {
                        assert(s2[a].path == k);
                    } else {
                        assert(s2[a + 1].path == k);
                    }
                }
                if holds_path(s2, k) {
                    let a = choose|a: int| 0 <= a < s2.len() && (#[trigger] s2[a]).path == k;
                    if a < j {
                        assert(s[a].path == k);
                    } else if a > j {
                        assert(s[a - 1].path == k);
                    }
                }
                if k == nv.path {
                    assert(s2[j as int].path == k);
                }
            }
            assert forall|k: Seq<char>| #[trigger] action_table(s2).contains_key(k) implies action_table(
                s2,
            )[k] == t.insert(nv.path, nv)[k] by {
                let a = choose|a: int| 0 <= a < s2.len() && (#[trigger] s2[a]).path == k;
                lemma_table_at(s2, a);
                if a < j {
                    assert(s[a] == s2[a]);
                    lemma_table_at(s, a);
                } else if a > j {
                    assert(s[a - 1] == s2[a]);
                    lemma_table_at(s, a - 1);
                }
            }
        }
        assert(string_views(warnings@) =~= w0 + merge_warning(t, nv));
    }
}

/// The table that merging the actions in order gives.
pub open spec fn merge_all(acts: Seq<ActionView>) -> Map<Seq<char>, ActionView>
    decreases acts.len(),
{
    if acts.len() == 0 {
        Map::empty()
    } else {
        merged_table(merge_all(acts.drop_last()), acts.last())
    }
}

/// The warnings that merging the actions in order gives.
pub open spec fn merge_all_warnings(acts: Seq<ActionView>) -> Seq<Seq<char>>
    decreases acts.len(),
{
    if acts.len() == 0 {
        Seq::empty()
    } else {
        merge_all_warnings(acts.drop_last()) + merge_warning(
            merge_all(acts.drop_last()),
            acts.last(),
        )
    }
}

/// Merges the actions found for the files of an add-on, in order, into
/// one action per path sorted by path.
pub fn merge_actions(actions: Vec<XAction>, warnings: &mut Vec<String>) -> (r: Vec<XAction>)
    ensures
        strictly_sorted(action_paths(action_views(r@))),
        action_table(action_views(r@)) == merge_all(action_views(actions@)),
        string_views(final(warnings)@) == string_views(old(warnings)@) + merge_all_warnings(
            action_views(actions@),
        ),
{
    let ghost all = action_views(actions@);
    let ghost w0 = string_views(warnings@);
    let n = actions.len();
    let mut rest = actions;
    let mut out: Vec<XAction> = Vec::new();
    assert(action_table(action_views(out@)) =~= Map::<Seq<char>, ActionView>::empty());
    assert(all.subrange(0, 0) =~= Seq::<ActionView>::empty());
    assert(action_views(rest@) =~= all.subrange(0, n as int));
    while rest.len() > 0
        invariant
            rest.len() <= n,
            n == all.len(),
            action_views(rest@) == all.subrange((n - rest.len()) as int, n as int),
            strictly_sorted(action_paths(action_views(out@))),
            action_table(action_views(out@)) == merge_all(all.subrange(0, (n - rest.len()) as int)),
            string_views(warnings@) == w0 + merge_all_warnings(
                all.subrange(0, (n - rest.len()) as int),
            ),
        decreases rest.len(),
    {
        let ghost k = (n - rest.len()) as int;
        let ghost rv = action_views(rest@);
        let next = rest.remove(0);
        assert(next.view() == rv[0]);
        assert(all[k] == rv[0]);
        assert(action_views(rest@) =~= rv.drop_first());
        assert(all.subrange(k, n as int).drop_first() =~= all.subrange(k + 1, n as int));
        let ghost before = string_views(warnings@);
        merge_action(&mut out, next, warnings);
        assert(all.subrange(0, k + 1).drop_last() =~= all.subrange(0, k));
        assert(all.subrange(0, k + 1).last() == all[k]);
        assert(string_views(warnings@) =~= w0 + merge_all_warnings(all.subrange(0, k + 1)));
    }
    assert(all.subrange(0, n as int) =~= all);
    out
}

/// Merging keeps a path exactly when some action is for it, and the path
/// ends up deleted exactly when some action for it deletes: a delete is
/// never overridden and always overrides.
pub proof fn law_merge_delete_wins(acts: Seq<ActionView>, k: Seq<char>)
    ensures
        merge_all(acts).contains_key(k) <==> holds_path(acts, k),
        merge_all(acts).contains_key(k) ==> (merge_all(acts)[k].kind == XActionKind::Delete <==> exists|
            i: int,
        |
            0 <= i < acts.len() && (#[trigger] acts[i]).path == k && acts[i].kind
                == XActionKind::Delete),
    decreases acts.len(),
{
    if acts.len() > 0 {
        let prev = acts.drop_last();
        law_merge_delete_wins(prev, k);
        assert forall|i: int| 0 <= i < prev.len() implies #[trigger] prev[i] == acts[i] by {}
        if holds_path(prev, k) {
            let i = choose|i: int| 0 <= i < prev.len() && (#[trigger] prev[i]).path == k;
            assert(acts[i].path == k);
        }
        if holds_path(acts, k) && acts.last().path != k {
            let i = choose|i: int| 0 <= i < acts.len() && (#[trigger] acts[i]).path == k;
            assert(prev[i].path == k);
        }
        if exists|i: int|
            0 <= i < prev.len() && (#[trigger] prev[i]).path == k && prev[i].kind
                == XActionKind::Delete {
            let i = choose|i: int|
                0 <= i < prev.len() && (#[trigger] prev[i]).path == k && prev[i].kind
                    == XActionKind::Delete;
            assert(acts[i].path == k && acts[i].kind == XActionKind::Delete);
        }
        if exists|i: int|
            0 <= i < acts.len() && (#[trigger] acts[i]).path == k && acts[i].kind
                == XActionKind::Delete {
            let i = choose|i: int|
                0 <= i < acts.len() && (#[trigger] acts[i]).path == k && acts[i].kind
                    == XActionKind::Delete;
            if i < prev.len() {
                assert(prev[i].path == k && prev[i].kind == XActionKind::Delete);
            }
        }
        if acts.last().path == k {
            assert(acts[acts.len() - 1].path == k);
        }
    }
}

/// What `url::Url::join` gives for `href` against the URL `base`: the
/// joined URL's text, or the text of the parse error; `None` when `base`
/// itself does not parse as a URL.
pub uninterp spec fn joined_url(base: Seq<char>, href: Seq<char>) -> Option<Result<Seq<char>, Seq<char>>>;

/// Calls `url::Url::parse` on `base`, then `Url::join` with `href`, and
/// renders the result with `to_string`. The contract only names the
/// result; how the url crate resolves a relative reference is not stated.
#[verifier::external_body]
fn url_join(base: &str, href: &str) -> (r: Option<Result<String, String>>)
    ensures
        match joined_url(base@, href@) {
            None => r is None,
            Some(Ok(u)) => r matches Some(Ok(x)) && x@ == u,
            Some(Err(e)) => r matches Some(Err(x)) && x@ == e,
        },
{
    match url::Url::parse(base) {
        Err(_) => None,
        Ok(b) => Some(
            match b.join(href) {
                Ok(u) => Ok(u.to_string()),
                Err(e) => Err(e.to_string()),
            },
        ),
    }
}

/// What `url::Url::parse` gives for a text: the URL's text and the
/// decoded keys of its query pairs, in order; `None` when it is no URL.
pub uninterp spec fn parsed_query(s: Seq<char>) -> Option<(Seq<char>, Seq<Seq<char>>)>;

/// Calls `url::Url::parse`, then `to_string` and the keys of
/// `query_pairs`. The contract only names the result.
#[verifier::external_body]
fn url_query_keys(s: &str) -> (r: Option<(String, Vec<String>)>)
    ensures
        match parsed_query(s@) {
            None => r is None,
            Some((text, keys)) => r matches Some((t, k)) && t@ == text && string_views(k@) == keys,
        },
{
    match url::Url::parse(s) {
        Err(_) => None,
        Ok(u) => Some((u.to_string(), u.query_pairs().map(|(k, _v)| k.into_owned()).collect())),
    }
}

/// The text of the URL `s` with the pair `key=value` appended to its query
/// (`Url::query_pairs_mut().append_pair`); `None` when `s` is no URL.
pub uninterp spec fn query_pair_appended(s: Seq<char>, key: Seq<char>, value: Seq<char>) -> Option<
    Seq<char>,
>;

/// Calls `url::Url::parse`, appends the pair with
/// `query_pairs_mut().append_pair` and renders the URL with `to_string`.
/// Beyond naming the result, the contract states that it is there exactly
/// when `s` parses, which is the same parse that `url_query_keys` makes.
#[verifier::external_body]
fn url_append_query_pair(s: &str, key: &str, value: &str) -> (r: Option<String>)
    ensures
        match query_pair_appended(s@, key@, value@) {
            None => r is None,
            Some(t) => r matches Some(x) && x@ == t,
        },
        (r is Some) == (parsed_query(s@) is Some),
{
    match url::Url::parse(s) {
        Err(_) => None,
        Ok(mut u) => {
            u.query_pairs_mut().append_pair(key, value);
            Some(u.to_string())
        },
    }
}

pub open spec fn ascii_letter(c: char) -> bool {
    ('a' <= c && c <= 'z') || ('A' <= c && c <= 'Z')
}

pub open spec fn host_char(c: char) -> bool {
    ascii_letter(c) || ('0' <= c && c <= '9') || c == '.' || c == '-'
}

/// A link written as host and path without a scheme: letters, digits,
/// dots and dashes, a dot and at least two letters, a `/`, and at least
/// one more character up to the end, none a line feed
/// (`^[a-zA-Z0-9.-]+\.[a-zA-Z]{2,}/.+$`).
pub open spec fn host_path_shape(h: Seq<char>) -> bool {
    exists|d: int, k: int|
        #![trigger h[d], h[k]]
        0 < d && d + 3 <= k && k + 1 < h.len() && h[d] == '.' && h[k] == '/' && (forall|i: int|
            0 <= i < d ==> host_char(#[trigger] h[i])) && (forall|i: int|
            d < i < k ==> ascii_letter(#[trigger] h[i])) && (forall|i: int|
            k < i < h.len() ==> #[trigger] h[i] != '\n')
}

#[verifier::loop_isolation(false)]
fn is_host_path(h: &[char]) -> (r: bool)
    ensures
        r == host_path_shape(h@),
{
    let n = h.len();
    assert(n == h@.len());
    let mut k: usize = 0;
    while k < n && h[k] != '/' && (('a' <= h[k] && h[k] <= 'z') || ('A' <= h[k] && h[k] <= 'Z')
        || ('0' <= h[k] && h[k] <= '9') || h[k] == '.' || h[k] == '-')
        invariant
            0 <= k <= n,
            n == h@.len(),
            forall|i: int| 0 <= i < k ==> host_char(#[trigger] h@[i]),
        decreases n - k,
    {
        k = k + 1;
    }
    if k >= n || h[k] != '/' || k + 1 >= n {
        proof {
            assert forall|d: int, kk: int|
                #![trigger h@[d], h@[kk]]
                0 < d && d + 3 <= kk && kk + 1 < h@.len() && h@[d] == '.' && h@[kk] == '/'
                    && (forall|i: int| 0 <= i < d ==> host_char(#[trigger] h@[i])) && (forall|i: int|
                    d < i < kk ==> ascii_letter(#[trigger] h@[i])) implies false by {
                if kk < k {
                } else if kk == k {
                } else {
                    assert(k < kk);
                    if k <= d {
                        assert(host_char(h@[k as int]));
                    } else {
                        assert(ascii_letter(h@[k as int]));
                    }
                }
            }
        }
        return false;
    }
    let mut d: usize = k;
    while d > 0 && h[d - 1] != '.'
        invariant
            0 <= d <= k,
            k < n,
            n == h@.len(),
            forall|i: int| d <= i < k ==> h@[i] != '.',
        decreases d,
    {
        d = d - 1;
    }
    if d == 0 {
        proof {
            assert forall|dd: int, kk: int|
                #![trigger h@[dd], h@[kk]]
                0 < dd && dd + 3 <= kk && kk + 1 < h@.len() && h@[dd] == '.' && h@[kk] == '/'
                    && (forall|i: int| 0 <= i < dd ==> host_char(#[trigger] h@[i])) && (forall|
                    i: int,
                | dd < i < kk ==> ascii_letter(#[trigger] h@[i])) implies false by {
                if kk > k {
                    if k <= dd {
                        assert(host_char(h@[k as int]));
                    } else {
                        assert(ascii_letter(h@[k as int]));
                    }
                } else if kk < k {
                    assert(host_char(h@[kk]));
                }
            }
        }
        return false;
    }
    let dot = d - 1;
    let mut ok = dot >= 1 && dot + 3 <= k;
    let mut i: usize = dot + 1;
    while i < k
        invariant
            dot < i <= k,
            k < n,
            n == h@.len(),
            ok ==> forall|j: int| dot < j < i ==> ascii_letter(#[trigger] h@[j]),
            ok ==> (dot >= 1 && dot + 3 <= k),
            !ok ==> !(dot >= 1 && dot + 3 <= k && forall|j: int|
                dot < j < i ==> ascii_letter(#[trigger] h@[j])),
        decreases k - i,
    {
        if !(('a' <= h[i] && h[i] <= 'z') || ('A' <= h[i] && h[i] <= 'Z')) {
            ok = false;
        }
        i = i + 1;
    }
    let mut e: usize = k + 1;
    while e < n
        invariant
            k < e <= n,
            n == h@.len(),
            ok ==> forall|j: int| k < j < e ==> #[trigger] h@[j] != '\n',
            ok ==> forall|j: int| dot < j < k ==> ascii_letter(#[trigger] h@[j]),
            ok ==> (dot >= 1 && dot + 3 <= k),
            !ok ==> !(dot >= 1 && dot + 3 <= k && (forall|j: int|
                dot < j < k ==> ascii_letter(#[trigger] h@[j])) && forall|j: int|
                k < j < e ==> #[trigger] h@[j] != '\n'),
        decreases n - e,
    {
        if h[e] == '\n' {
            ok = false;
        }
        e = e + 1;
    }
    proof {
        if ok {
            assert(h@[dot as int] == '.' && h@[k as int] == '/');
            assert(forall|i: int| 0 <= i < dot ==> host_char(#[trigger] h@[i]));
            assert(forall|i: int| dot < i < k ==> ascii_letter(#[trigger] h@[i]));
            assert(forall|i: int| k < i < h@.len() ==> #[trigger] h@[i] != '\n');
            assert(host_path_shape(h@));
        } else {
            assert forall|dd: int, kk: int|
                #![trigger h@[dd], h@[kk]]
                0 < dd && dd + 3 <= kk && kk + 1 < h@.len() && h@[dd] == '.' && h@[kk] == '/'
                    && (forall|j: int| 0 <= j < dd ==> host_char(#[trigger] h@[j])) && (forall|
                    j: int,
                | dd < j < kk ==> ascii_letter(#[trigger] h@[j])) && (forall|j: int|
                    kk < j < h@.len() ==> #[trigger] h@[j] != '\n') implies false by {
                if kk > k {
                    if k <= dd {
                        assert(host_char(h@[k as int]));
                    } else {
                        assert(ascii_letter(h@[k as int]));
                    }
                } else if kk < k {
                    assert(host_char(h@[kk]));
                } else {
                    if dd < dot {
                        assert(ascii_letter(h@[dot as int]));
                    } else if dd > dot {
                        assert(h@[dd] != '.');
                    }
                }
            }
            assert(!host_path_shape(h@));
        }
    }
    ok
}

/// Where an API link points: scheme-relative links get `https:`, links
/// with an HTTP scheme stay, host-and-path links get `https://`; anything
/// else is resolved against the server (the host of a tagged update URL,
/// else the server text itself).
pub open spec fn resolved_link(base_host: Seq<char>, href: Seq<char>) -> Result<Seq<char>, Seq<char>> {
    let h = trim(href);
    if h.len() == 0 {
        Err("Invalid empty API link"@)
    } else if starts_with(h, "//"@) {
        Ok("https:"@ + h)
    } else if starts_with(h, "http://"@) || starts_with(h, "https://"@) {
        Ok(h)
    } else if host_path_shape(h) {
        Ok("https://"@ + h)
    } else {
        let base = match tagged_host(base_host) {
            Some(t) => t,
            None => base_host,
        };
        match joined_url(base, h) {
            None => Err("Invalid host '"@ + base + "'"@),
            Some(Ok(u)) => Ok(u),
            Some(Err(e)) => Err(e),
        }
    }
}

pub fn resolve_link(base_host: &str, href: &str) -> (r: Result<String, String>)
    ensures
        match resolved_link(base_host@, href@) {
            Ok(u) => r matches Ok(x) && x@ == u,
            Err(e) => r matches Err(x) && x@ == e,
        },
{
    let h = trim_vec(&chars_of(href));
    if h.len() == 0 {
        return Err(string_of(&chars_of("Invalid empty API link")));
    }
    if starts_with_exec(&h, &chars_of("//")) {
        let mut v = chars_of("https:");
        push_all(&mut v, &h);
        return Ok(string_of(&v));
    }
    if starts_with_exec(&h, &chars_of("http://")) || starts_with_exec(&h, &chars_of("https://")) {
        return Ok(string_of(&h));
    }
    if is_host_path(&h) {
        let mut v = chars_of("https://");
        push_all(&mut v, &h);
        return Ok(string_of(&v));
    }
    let base = match parse_tagged_update_url(base_host) {
        Some(t) => t,
        None => string_of(&chars_of(base_host)),
    };
    let hs = string_of(&h);
    match url_join(base.as_str(), hs.as_str()) {
        None => {
            let mut v = chars_of("Invalid host '");
            push_all(&mut v, &chars_of(base.as_str()));
            push_all(&mut v, &chars_of("'"));
            Err(string_of(&v))
        },
        Some(Ok(u)) => Ok(u),
        Some(Err(e)) => Err(e),
    }
}

/// A file-list link with the revision to list changes since: a
/// `{since}` placeholder is filled in; otherwise a `since` query pair is
/// appended unless there is one.
pub open spec fn with_since(url: Seq<char>, since: i64) -> Result<Seq<char>, Seq<char>> {
    if contains(url, "{since}"@) {
        Ok(replace_all(url, "{since}"@, dec_int(since as int)))
    } else {
        match parsed_query(url) {
            None => Err("Invalid URL '"@ + url + "'"@),
            Some((text, keys)) => if keys.contains("since"@) {
                Ok(text)
            } else {
                match query_pair_appended(url, "since"@, dec_int(since as int)) {
                    Some(t) => Ok(t),
                    None => Err("Invalid URL '"@ + url + "'"@),
                }
            },
        }
    }
}

pub fn ensure_since_parameter(url: &str, since: i64) -> (r: Result<String, String>)
    ensures
        match with_since(url@, since) {
            Ok(u) => r matches Ok(x) && x@ == u,
            Err(e) => r matches Err(x) && x@ == e,
        },
{
    let u = chars_of(url);
    let placeholder = chars_of("{since}");
    proof {
        reveal_strlit("{since}");
    }
    let num = dec_i64(since);
    if contains_exec(&u, &placeholder) {
        return Ok(string_of(&replace_vec(&u, &placeholder, &num)));
    }
    match url_query_keys(url) {
        None => {
            let mut v = chars_of("Invalid URL '");
            push_all(&mut v, &u);
            push_all(&mut v, &chars_of("'"));
            Err(string_of(&v))
        },
        Some((text, keys)) => {
            let ghost ks = string_views(keys@);
            let key = chars_of("since");
            let mut i: usize = 0;
            while i < keys.len()
                invariant
                    0 <= i <= keys.len(),
                    ks == string_views(keys@),
                    key@ == "since"@,
                    u@ == url@,
                    !contains(url@, "{since}"@),
                    parsed_query(url@) == Some((text@, ks)),
                    forall|j: int| 0 <= j < i ==> #[trigger] ks[j] != "since"@,
                decreases keys.len() - i,
            {
                assert(ks[i as int] == keys@[i as int]@);
                if crate::text::eq_chars(&chars_of(keys[i].as_str()), &key) {
                    assert(ks.contains("since"@));
                    return Ok(text);
                }
                i = i + 1;
            }
            let ns = string_of(&num);
            match url_append_query_pair(url, "since", ns.as_str()) {
                Some(t) => Ok(t),
                None => {
                    let mut v = chars_of("Invalid URL '");
                    push_all(&mut v, &u);
                    push_all(&mut v, &chars_of("'"));
                    Err(string_of(&v))
                },
            }
        },
    }
}

/// A file entry of an X-Updater file list, reduced to what the update
/// logic reads: its path text, its state, its MD5 text, whether it has
/// links and the text of its download link, and its compressed and plain
/// sizes.
#[derive(Debug)]
pub struct XFileEntry {
    pub path: Option<String>,
    pub state: Option<FileStateValue>,
    pub md5: Option<String>,
    pub has_links: bool,
    pub data_link: Option<String>,
    pub compressed_size: Option<u64>,
    pub plain_size: Option<u64>,
}

/// What is on disk at the path of a file entry: whether something is
/// there, whether it is a file, and the MD5 of the file when it was read.
#[derive(Debug)]
pub struct LocalFileState {
    pub exists: bool,
    pub is_file: bool,
    pub md5: Option<String>,
}

/// The MD5 a file entry expects: its MD5 text trimmed and lower-cased,
/// when something is left.
pub open spec fn expected_md5(md5: Option<String>) -> Option<Seq<char>> {
    match md5 {
        Some(m) => if lowercase(trim(m@)).len() > 0 {
            Some(lowercase(trim(m@)))
        } else {
            None
        },
        None => None,
    }
}

pub fn expected_md5_of(file: &XFileEntry) -> (r: Option<String>)
    ensures
        match expected_md5(file.md5) {
            Some(m) => r matches Some(x) && x@ == m,
            None => r is None,
        },
{
    match &file.md5 {
        Some(m) => {
            let v = to_lowercase_chars(&trim_vec(&chars_of(m.as_str())));
            if v.len() > 0 {
                Some(string_of(&v))
            } else {
                None
            }
        },
        None => None,
    }
}

/// Whether the app must read the MD5 of the local file for the entry: not
/// a fresh install, a file is there, and the entry expects an MD5.
pub fn file_needs_local_md5(file: &XFileEntry, fresh_install: bool, exists: bool, is_file: bool) -> (r:
    bool)
    ensures
        r == (!fresh_install && exists && is_file && expected_md5(file.md5) is Some),
{
    !fresh_install && exists && is_file && expected_md5_of(file).is_some()
}

/// The action for a file entry of the scan, or none, or the error that
/// stops the scan: the path must be given and safe; ignored paths and
/// entries whose state asks for nothing give no action; a delete needs the
/// file to be there; a file whose MD5 already matches gives no action
/// (unless installing fresh); otherwise the entry must have a download
/// link, and the action adds or replaces the file by downloading it.
pub open spec fn file_action(
    host: Seq<char>,
    ignore: Seq<Seq<char>>,
    f: XFileEntry,
    fresh_install: bool,
    local: LocalFileState,
) -> Result<Option<ActionView>, Seq<char>> {
    match f.path {
        None => Err("x-updater file entry is missing path"@),
        Some(raw) => match manifest_path(raw@) {
            Err(code) => Err(manifest_path_error(raw@, code)),
            Ok(rel) => if ignored_by(rel, ignore) || noop_state(f.state) {
                Ok(None)
            } else {
                match manifest_path(rel) {
                    Err(code) => Err(manifest_path_error(rel, code)),
                    Ok(_) => if file_state_kind(f.state) == XActionKind::Delete {
                        if local.exists {
                            Ok(
                                Some(
                                    ActionView {
                                        path: rel,
                                        kind: XActionKind::Delete,
                                        download: None,
                                        estimated_bytes: 0,
                                    },
                                ),
                            )
                        } else {
                            Ok(None)
                        }
                    } else {
                        let expected = expected_md5(f.md5);
                        if !fresh_install && local.exists && local.is_file && expected is Some
                            && (local.md5 matches Some(m) && eq_ignore_ascii_case(
                            m@,
                            expected->0,
                        )) {
                            Ok(None)
                        } else if !f.has_links {
                            Err("x-updater file entry '"@ + rel + "' is missing links"@)
                        } else {
                            match f.data_link {
                                None => Err(
                                    "x-updater file entry '"@ + rel + "' is missing download link"@,
                                ),
                                Some(link) => match resolved_link(host, link@) {
                                    Err(e) => Err(e),
                                    Ok(url) => Ok(
                                        Some(
                                            ActionView {
                                                path: rel,
                                                kind: if local.exists {
                                                    XActionKind::Replace
                                                } else {
                                                    XActionKind::Add
                                                },
                                                download: Some(
                                                    (
                                                        rel,
                                                        url,
                                                        expected,
                                                        match f.plain_size {
                                                            Some(p) => Some(p),
                                                            None => f.compressed_size,
                                                        },
                                                    ),
                                                ),
                                                estimated_bytes: match f.compressed_size {
                                                    Some(c) => c,
                                                    None => match f.plain_size {
                                                        Some(p) => p,
                                                        None => 0,
                                                    },
                                                },
                                            },
                                        ),
                                    ),
                                },
                            }
                        }
                    },
                }
            },
        },
    }
}

fn quoted_entry_error(rel: &[char], tail: &str) -> (r: String)
    ensures
        r@ == "x-updater file entry '"@ + rel@ + tail@,
{
    let mut v = chars_of("x-updater file entry '");
    push_all(&mut v, rel);
    push_all(&mut v, &chars_of(tail));
    string_of(&v)
}

pub fn build_action_from_file(
    host: &str,
    ignore_list: &[String],
    file: &XFileEntry,
    fresh_install: bool,
    local: &LocalFileState,
) -> (r: Result<Option<XAction>, String>)
    ensures
        match file_action(host@, string_views(ignore_list@), *file, fresh_install, *local) {
            Ok(None) => r matches Ok(None),
            Ok(Some(a)) => r matches Ok(Some(x)) && x.view() == a,
            Err(e) => r matches Err(x) && x@ == e,
        },
{
    let raw = match &file.path {
        None => {
            return Err(string_of(&chars_of("x-updater file entry is missing path")));
        },
        Some(p) => p,
    };
    let rel = match normalize_manifest_path(raw.as_str()) {
        Ok(v) => v,
        Err(e) => {
            return Err(e);
        },
    };
    if should_ignore_path(rel.as_str(), ignore_list) || is_noop_state(file.state.as_ref()) {
        return Ok(None);
    }
    match normalize_manifest_path(rel.as_str()) {
        Ok(_) => {},
        Err(e) => {
            return Err(e);
        },
    }
    let kind = parse_file_state(file.state.as_ref());
    if kind == XActionKind::Delete {
        if local.exists {
            return Ok(
                Some(
                    XAction {
                        rel_path: rel,
                        kind: XActionKind::Delete,
                        download: None,
                        estimated_bytes: 0,
                    },
                ),
            );
        }
        return Ok(None);
    }
    let expected = expected_md5_of(file);
    if !fresh_install && local.exists && local.is_file {
        match (&expected, &local.md5) {
            (Some(e), Some(m)) => {
                if eq_ignore_ascii_case_exec(&chars_of(m.as_str()), &chars_of(e.as_str())) {
                    return Ok(None);
                }
            },
            _ => {},
        }
    }
    let rel_chars = chars_of(rel.as_str());
    if !file.has_links {
        return Err(quoted_entry_error(&rel_chars, "' is missing links"));
    }
    let link = match &file.data_link {
        None => {
            return Err(quoted_entry_error(&rel_chars, "' is missing download link"));
        },
        Some(l) => l,
    };
    let url = match resolve_link(host, link.as_str()) {
        Ok(u) => u,
        Err(e) => {
            return Err(e);
        },
    };
    let expected_size = match file.plain_size {
        Some(p) => Some(p),
        None => file.compressed_size,
    };
    let estimated_bytes = match file.compressed_size {
        Some(c) => c,
        None => match file.plain_size {
            Some(p) => p,
            None => 0,
        },
    };
    let kind = if local.exists {
        XActionKind::Replace
    } else {
        XActionKind::Add
    };
    let task_path = string_of(&rel_chars);
    Ok(
        Some(
            XAction {
                rel_path: rel,
                kind,
                download: Some(
                    XDownloadTask { rel_path: task_path, url, expected_md5: expected, expected_size },
                ),
                estimated_bytes,
            },
        ),
    )
}

/// The path of the URL that a text parses as (`url::Url::parse`, then
/// `Url::path`); `None` when it is no URL.
pub uninterp spec fn parsed_url_path(s: Seq<char>) -> Option<Seq<char>>;

/// Calls `url::Url::parse` and `Url::path`. The contract only names the
/// result.
#[verifier::external_body]
pub(crate) fn url_path(s: &str) -> (r: Option<String>)
    ensures
        match parsed_url_path(s@) {
            None => r is None,
            Some(p) => r matches Some(x) && x@ == p,
        },
{
    match url::Url::parse(s) {
        Err(_) => None,
        Ok(u) => Some(u.path().to_string()),
    }
}

/// `Url::path_segments`: the pieces between `/` of a path that starts
/// with `/`; none for other paths.
pub open spec fn path_segments_of(path: Seq<char>) -> Option<Seq<Seq<char>>> {
    if path.len() > 0 && path[0] == '/' {
        Some(split_pieces(path.drop_first(), '/'))
    } else {
        None
    }
}

pub(crate) fn path_segments_vec(path: &[char]) -> (r: Option<Vec<Vec<char>>>)
    ensures
        match path_segments_of(path@) {
            None => r is None,
            Some(ps) => r matches Some(x) && seqs(x@) == ps,
        },
{
    if path.len() > 0 && path[0] == '/' {
        let rest = slice_vec(path, 1, path.len());
        assert(rest@ =~= path@.drop_first());
        Some(split_char(&rest, '/'))
    } else {
        None
    }
}

/// The last piece that is not blank, trimmed.
pub open spec fn last_nonblank(pieces: Seq<Seq<char>>) -> Option<Seq<char>>
    decreases pieces.len(),
{
    if pieces.len() == 0 {
        None
    } else if trim(pieces.last()).len() > 0 {
        Some(trim(pieces.last()))
    } else {
        last_nonblank(pieces.drop_last())
    }
}

fn last_nonblank_vec(pieces: &Vec<Vec<char>>) -> (r: Option<Vec<char>>)
    ensures
        match last_nonblank(seqs(pieces@)) {
            None => r is None,
            Some(t) => r matches Some(x) && x@ == t,
        },
{
    let ghost ps = seqs(pieces@);
    let mut n: usize = pieces.len();
    assert(ps.subrange(0, n as int) =~= ps);
    while n > 0
        invariant
            0 <= n <= pieces.len(),
            ps == seqs(pieces@),
            last_nonblank(ps) == last_nonblank(ps.subrange(0, n as int)),
        decreases n,
    {
        let ghost sub = ps.subrange(0, n as int);
        assert(sub.last() == pieces@[n - 1]@);
        assert(sub.drop_last() =~= ps.subrange(0, n - 1));
        let t = trim_vec(&pieces[n - 1]);
        if t.len() > 0 {
            return Some(t);
        }
        n = n - 1;
    }
    None
}

/// The text after a prefix, trimmed, when the text starts with the prefix
/// and something is left.
pub open spec fn after_prefix(raw: Seq<char>, prefix: Seq<char>) -> Option<Seq<char>> {
    if starts_with(raw, prefix) && trim(raw.subrange(prefix.len() as int, raw.len() as int)).len() > 0 {
        Some(trim(raw.subrange(prefix.len() as int, raw.len() as int)))
    } else {
        None
    }
}

fn after_prefix_vec(raw: &[char], prefix: &str) -> (r: Option<Vec<char>>)
    ensures
        match after_prefix(raw@, prefix@) {
            None => r is None,
            Some(t) => r matches Some(x) && x@ == t,
        },
{
    let p = chars_of(prefix);
    if starts_with_exec(raw, &p) {
        let t = trim_vec(&slice_vec(raw, p.len(), raw.len()));
        if t.len() > 0 {
            return Some(t);
        }
    }
    None
}

/// The token in an authorization text: after `Bearer `, `bearer `,
/// `Token ` or `token `; else the last path segment of the URL it parses
/// as; else, for a text starting with `/`, its last segment that is not
/// blank.
pub open spec fn bearer_token(raw: Seq<char>) -> Option<Seq<char>> {
    if raw.len() == 0 {
        None
    } else if after_prefix(raw, "Bearer "@) is Some {
        after_prefix(raw, "Bearer "@)
    } else if after_prefix(raw, "bearer "@) is Some {
        after_prefix(raw, "bearer "@)
    } else if after_prefix(raw, "Token "@) is Some {
        after_prefix(raw, "Token "@)
    } else if after_prefix(raw, "token "@) is Some {
        after_prefix(raw, "token "@)
    } else {
        let from_url = match parsed_url_path(raw) {
            Some(p) => match path_segments_of(p) {
                Some(segs) => if trim(segs.last()).len() > 0 {
                    Some(trim(segs.last()))
                } else {
                    None
                },
                None => None,
            },
            None => None,
        };
        if from_url is Some {
            from_url
        } else if raw[0] == '/' {
            last_nonblank(split_pieces(raw, '/'))
        } else {
            None
        }
    }
}

pub fn parse_bearer_token(raw: &str) -> (r: Option<String>)
    ensures
        match bearer_token(raw@) {
            None => r is None,
            Some(t) => r matches Some(x) && x@ == t,
        },
{
    let v = chars_of(raw);
    if v.len() == 0 {
        return None;
    }
    match after_prefix_vec(&v, "Bearer ") {
        Some(t) => {
            return Some(string_of(&t));
        },
        None => {},
    }
    match after_prefix_vec(&v, "bearer ") {
        Some(t) => {
            return Some(string_of(&t));
        },
        None => {},
    }
    match after_prefix_vec(&v, "Token ") {
        Some(t) => {
            return Some(string_of(&t));
        },
        None => {},
    }
    match after_prefix_vec(&v, "token ") {
        Some(t) => {
            return Some(string_of(&t));
        },
        None => {},
    }
    match url_path(raw) {
        Some(p) => match path_segments_vec(&chars_of(p.as_str())) {
            Some(segs) => {
                proof {
                    lemma_split_pieces_nonempty(p@.drop_first(), '/');
                }
                let last = segs.len() - 1;
                assert(seqs(segs@).last() == segs@[last as int]@);
                let t = trim_vec(&segs[last]);
                if t.len() > 0 {
                    return Some(string_of(&t));
                }
            },
            None => {},
        },
        None => {},
    }
    if v[0] == '/' {
        match last_nonblank_vec(&split_char(&v, '/')) {
            Some(t) => Some(string_of(&t)),
            None => None,
        }
    } else {
        None
    }
}

/// The first line of a text that holds a token, else the whole text.
pub open spec fn first_line_bearer(ls: Seq<Seq<char>>) -> Option<Seq<char>>
    decreases ls.len(),
{
    if ls.len() == 0 {
        None
    } else if bearer_token(trim(ls[0])) is Some {
        bearer_token(trim(ls[0]))
    } else {
        first_line_bearer(ls.drop_first())
    }
}

pub open spec fn text_bearer(text: Seq<char>) -> Option<Seq<char>> {
    if first_line_bearer(lines(text)) is Some {
        first_line_bearer(lines(text))
    } else {
        bearer_token(trim(text))
    }
}

pub fn extract_bearer_from_text(text: &str) -> (r: Option<String>)
    ensures
        match text_bearer(text@) {
            None => r is None,
            Some(t) => r matches Some(x) && x@ == t,
        },
{
    let ls = lines_of(&chars_of(text));
    let ghost all = seqs(ls@);
    let mut k: usize = 0;
    assert(all.subrange(0, all.len() as int) =~= all);
    while k < ls.len()
        invariant
            0 <= k <= ls.len(),
            all == seqs(ls@),
            all == lines(text@),
            first_line_bearer(all) == first_line_bearer(all.subrange(k as int, all.len() as int)),
        decreases ls.len() - k,
    {
        let ghost rest = all.subrange(k as int, all.len() as int);
        assert(rest[0] == ls@[k as int]@);
        assert(rest.drop_first() =~= all.subrange(k + 1, all.len() as int));
        let line = string_of(&trim_vec(&ls[k]));
        match parse_bearer_token(line.as_str()) {
            Some(t) => {
                return Some(t);
            },
            None => {},
        }
        k = k + 1;
    }
    assert(all.subrange(ls@.len() as int, all.len() as int) =~= Seq::<Seq<char>>::empty());
    let whole = string_of(&trim_vec(&chars_of(text)));
    parse_bearer_token(whole.as_str())
}

/// The headers of an authentication reply that may carry a token, as
/// visible text.
#[derive(Debug)]
pub struct AuthHeaders {
    pub authorization: Option<String>,
    pub location: Option<String>,
    pub x_auth_token: Option<String>,
    pub x_bearer_token: Option<String>,
    pub bearer_token: Option<String>,
    pub token: Option<String>,
}

/// The token a header gives: the token in its text, or (except for
/// `authorization`) the text itself.
pub open spec fn header_token(value: Option<String>, is_authorization: bool) -> Option<Seq<char>> {
    match nonempty_trimmed(value) {
        None => None,
        Some(t) => if bearer_token(t) is Some {
            bearer_token(t)
        } else if !is_authorization {
            Some(t)
        } else {
            None
        },
    }
}

/// The token of the first header that gives one, in the order
/// `authorization`, `x-auth-token`, `x-bearer-token`, `bearer-token`,
/// `token`.
pub open spec fn headers_bearer(h: AuthHeaders) -> Option<Seq<char>> {
    if header_token(h.authorization, true) is Some {
        header_token(h.authorization, true)
    } else if header_token(h.x_auth_token, false) is Some {
        header_token(h.x_auth_token, false)
    } else if header_token(h.x_bearer_token, false) is Some {
        header_token(h.x_bearer_token, false)
    } else if header_token(h.bearer_token, false) is Some {
        header_token(h.bearer_token, false)
    } else {
        header_token(h.token, false)
    }
}

fn header_token_exec(value: &Option<String>, is_authorization: bool) -> (r: Option<String>)
    ensures
        match header_token(*value, is_authorization) {
            None => r is None,
            Some(t) => r matches Some(x) && x@ == t,
        },
{
    match nonempty_trimmed_vec(value) {
        None => None,
        Some(t) => {
            let ts = string_of(&t);
            match parse_bearer_token(ts.as_str()) {
                Some(b) => Some(b),
                None => if !is_authorization {
                    Some(ts)
                } else {
                    None
                },
            }
        },
    }
}

pub fn extract_bearer_from_headers(headers: &AuthHeaders) -> (r: Option<String>)
    ensures
        match headers_bearer(*headers) {
            None => r is None,
            Some(t) => r matches Some(x) && x@ == t,
        },
{
    match header_token_exec(&headers.authorization, true) {
        Some(t) => {
            return Some(t);
        },
        None => {},
    }
    match header_token_exec(&headers.x_auth_token, false) {
        Some(t) => {
            return Some(t);
        },
        None => {},
    }
    match header_token_exec(&headers.x_bearer_token, false) {
        Some(t) => {
            return Some(t);
        },
        None => {},
    }
    match header_token_exec(&headers.bearer_token, false) {
        Some(t) => {
            return Some(t);
        },
        None => {},
    }
    header_token_exec(&headers.token, false)
}

/// How requests to the server authenticate.
#[derive(Debug)]
pub enum XAuthMode {
    Basic,
    Bearer(String),
    Anonymous,
}

/// An authentication mode as plain values: basic (0), bearer with its
/// token (1), anonymous (2).
pub open spec fn mode_view(m: XAuthMode) -> (u8, Seq<char>) {
    match m {
        XAuthMode::Basic => (0, Seq::empty()),
        XAuthMode::Bearer(t) => (1, t@),
        XAuthMode::Anonymous => (2, Seq::empty()),
    }
}

/// What a JSON authentication reply says, as text: its type (`auth.type`
/// or `type`) and its token (`auth.token` or `token`).
#[derive(Debug)]
pub struct AuthReply {
    pub kind: Option<String>,
    pub token: Option<String>,
}

/// The mode a JSON reply asks for: type `none` is anonymous; a token
/// (trimmed, not blank) makes it bearer unless the type names another
/// scheme; everything else is basic.
pub open spec fn reply_mode(reply: AuthReply) -> (u8, Seq<char>) {
    let token = nonempty_trimmed(reply.token);
    match reply.kind {
        Some(k) => {
            let kind = lowercase(trim(k@));
            if kind == "none"@ {
                (2, Seq::empty())
            } else if kind == "bearer"@ && token is Some {
                (1, token->0)
            } else {
                (0, Seq::empty())
            }
        },
        None => if token is Some {
            (1, token->0)
        } else {
            (0, Seq::empty())
        },
    }
}

pub fn parse_xup_auth_mode_from_json(reply: &AuthReply) -> (r: XAuthMode)
    ensures
        mode_view(r) == reply_mode(*reply),
{
    let token = nonempty_trimmed_vec(&reply.token);
    match &reply.kind {
        Some(k) => {
            let kind = to_lowercase_chars(&trim_vec(&chars_of(k.as_str())));
            if eq_str(&kind, "none") {
                return XAuthMode::Anonymous;
            }
            if eq_str(&kind, "bearer") {
                match token {
                    Some(t) => {
                        return XAuthMode::Bearer(string_of(&t));
                    },
                    None => {},
                }
            }
            XAuthMode::Basic
        },
        None => match token {
            Some(t) => XAuthMode::Bearer(string_of(&t)),
            None => XAuthMode::Basic,
        },
    }
}

/// The mode an authentication reply asks for: a token in the headers;
/// else basic for an empty body; else what the body says as JSON; else a
/// token in the body text; else basic.
pub open spec fn reply_auth_mode(
    headers: AuthHeaders,
    body_empty: bool,
    json: Option<AuthReply>,
    body_text: Option<Seq<char>>,
) -> (u8, Seq<char>) {
    if headers_bearer(headers) is Some {
        (1, headers_bearer(headers)->0)
    } else if body_empty {
        (0, Seq::empty())
    } else if json is Some {
        reply_mode(json->0)
    } else if body_text is Some && text_bearer(body_text->0) is Some {
        (1, text_bearer(body_text->0)->0)
    } else {
        (0, Seq::empty())
    }
}

/// The authentication mode from a reply: its headers, whether its body is
/// empty, the body read as JSON when it is JSON, and the body as text when
/// it is UTF-8.
pub fn parse_xup_auth_mode(
    headers: &AuthHeaders,
    body_empty: bool,
    json: Option<&AuthReply>,
    body_text: Option<&str>,
) -> (r: XAuthMode)
    ensures
        mode_view(r) == reply_auth_mode(
            *headers,
            body_empty,
            match json {
                Some(j) => Some(*j),
                None => None,
            },
            match body_text {
                Some(t) => Some(t@),
                None => None,
            },
        ),
{
    match extract_bearer_from_headers(headers) {
        Some(t) => {
            return XAuthMode::Bearer(t);
        },
        None => {},
    }
    if body_empty {
        return XAuthMode::Basic;
    }
    match json {
        Some(j) => {
            return parse_xup_auth_mode_from_json(j);
        },
        None => {},
    }
    match body_text {
        Some(t) => match extract_bearer_from_text(t) {
            Some(b) => XAuthMode::Bearer(b),
            None => XAuthMode::Basic,
        },
        None => XAuthMode::Basic,
    }
}

/// A token with the `Bearer ` and `Token ` forms of it.
pub open spec fn token_forms(t: Seq<char>) -> Seq<Seq<char>> {
    seq![t, "Bearer "@ + t, "Token "@ + t]
}

/// The authorization values a candidate from the server stands for: the
/// candidate itself; for a URL also its path (unless `/`) and the token
/// forms of its last segment; for a path also the link it resolves to and
/// the token forms of its last segment; for a bare token its `Bearer ` and
/// `Token ` forms unless it names a scheme already.
pub open spec fn expanded_candidate(host: Seq<char>, input: Seq<char>) -> Seq<Seq<char>> {
    let raw = trim(input);
    if raw.len() == 0 {
        Seq::empty()
    } else if starts_with(raw, "http://"@) || starts_with(raw, "https://"@) {
        match parsed_url_path(raw) {
            None => seq![raw],
            Some(path) => {
                let p = trim(path);
                let a = if p.len() > 0 && p != "/"@ {
                    seq![raw, p]
                } else {
                    seq![raw]
                };
                match path_segments_of(path) {
                    Some(segs) => match last_nonblank(segs) {
                        Some(t) => a + token_forms(t),
                        None => a,
                    },
                    None => a,
                }
            },
        }
    } else if raw[0] == '/' {
        let a = match resolved_link(host, raw) {
            Ok(u) => seq![raw, u],
            Err(_) => seq![raw],
        };
        match last_nonblank(split_pieces(raw, '/')) {
            Some(t) => a + token_forms(t),
            None => a,
        }
    } else {
        let lower = ascii_lower_seq(raw);
        if starts_with(lower, "bearer "@) || starts_with(lower, "basic "@) || starts_with(
            lower,
            "token "@,
        ) {
            seq![raw]
        } else {
            seq![raw, "Bearer "@ + raw, "Token "@ + raw]
        }
    }
}

fn prefixed(prefix: &str, t: &[char]) -> (r: String)
    ensures
        r@ == prefix@ + t@,
{
    let mut v = chars_of(prefix);
    push_all(&mut v, t);
    string_of(&v)
}

fn push_token_forms(out: &mut Vec<String>, t: &[char])
    ensures
        string_views(final(out)@) == string_views(old(out)@) + token_forms(t@),
{
    let ghost before = string_views(out@);
    out.push(string_of(t));
    out.push(prefixed("Bearer ", t));
    out.push(prefixed("Token ", t));
    assert(string_views(out@) =~= before + token_forms(t@));
}

pub fn expand_xup_auth_candidate(host: &str, input: &str) -> (r: Vec<String>)
    ensures
        string_views(r@) == expanded_candidate(host@, input@),
{
    let raw = trim_vec(&chars_of(input));
    let mut out: Vec<String> = Vec::new();
    if raw.len() == 0 {
        assert(string_views(out@) =~= Seq::<Seq<char>>::empty());
        return out;
    }
    let raw_s = string_of(&raw);
    out.push(string_of(&raw));
    assert(string_views(out@) =~= seq![raw@]);
    if starts_with_exec(&raw, &chars_of("http://")) || starts_with_exec(&raw, &chars_of("https://")) {
        match url_path(raw_s.as_str()) {
            None => {},
            Some(path) => {
                let pc = chars_of(path.as_str());
                let p = trim_vec(&pc);
                if p.len() > 0 && !eq_str(&p, "/") {
                    out.push(string_of(&p));
                    assert(string_views(out@) =~= seq![raw@, p@]);
                }
                match path_segments_vec(&pc) {
                    Some(segs) => match last_nonblank_vec(&segs) {
                        Some(t) => {
                            push_token_forms(&mut out, &t);
                        },
                        None => {},
                    },
                    None => {},
                }
            },
        }
    } else if raw[0] == '/' {
        match resolve_link(host, raw_s.as_str()) {
            Ok(u) => {
                let ghost u_v = u@;
                out.push(u);
                assert(string_views(out@) =~= seq![raw@, u_v]);
            },
            Err(_) => {},
        }
        match last_nonblank_vec(&split_char(&raw, '/')) {
            Some(t) => {
                push_token_forms(&mut out, &t);
            },
            None => {},
        }
    } else {
        let lower = ascii_lower_vec(&raw);
        if !(starts_with_exec(&lower, &chars_of("bearer ")) || starts_with_exec(
            &lower,
            &chars_of("basic "),
        ) || starts_with_exec(&lower, &chars_of("token "))) {
            out.push(prefixed("Bearer ", &raw));
            out.push(prefixed("Token ", &raw));
            assert(string_views(out@) =~= seq![raw@, "Bearer "@ + raw@, "Token "@ + raw@]);
        }
    }
    out
}

/// The texts that are kept: trimmed, without the blank ones.
pub open spec fn trimmed_nonblank(xs: Seq<Seq<char>>) -> Seq<Seq<char>>
    decreases xs.len(),
{
    if xs.len() == 0 {
        Seq::empty()
    } else if trim(xs.last()).len() > 0 {
        trimmed_nonblank(xs.drop_last()).push(trim(xs.last()))
    } else {
        trimmed_nonblank(xs.drop_last())
    }
}

/// All candidates expanded, in order.
pub open spec fn expanded_all(host: Seq<char>, raws: Seq<Seq<char>>) -> Seq<Seq<char>>
    decreases raws.len(),
{
    if raws.len() == 0 {
        Seq::empty()
    } else {
        expanded_all(host, raws.drop_last()) + expanded_candidate(host, raws.last())
    }
}

/// A body text that may itself be an authorization value: not blank, at
/// most 1024 bytes, and not JSON or markup.
pub open spec fn body_candidate(text: Option<Seq<char>>) -> Seq<Seq<char>> {
    match text {
        Some(t) => {
            let c = trim(t);
            if c.len() > 0 && vstd::utf8::encode_utf8(c).len() <= 1024 && c[0] != '{' && c[0]
                != '[' && c[0] != '<' {
                seq![c]
            } else {
                Seq::empty()
            }
        },
        None => Seq::empty(),
    }
}

/// A header value trimmed, as a list of one, or none when blank.
pub open spec fn opt_item(v: Option<String>) -> Seq<Seq<char>> {
    match nonempty_trimmed(v) {
        Some(t) => seq![t],
        None => Seq::empty(),
    }
}

/// The raw candidates of a reply: the headers `authorization`,
/// `location`, `x-auth-token`, `x-bearer-token`, `bearer-token` and
/// `token`, the token-like values of its JSON body, the body text, and for
/// a bearer reply its token in all three forms.
pub open spec fn raw_candidates(
    headers: AuthHeaders,
    json_values: Seq<Seq<char>>,
    body_text: Option<Seq<char>>,
    mode: (u8, Seq<char>),
) -> Seq<Seq<char>> {
    let from_headers = opt_item(headers.authorization) + opt_item(headers.location) + opt_item(
        headers.x_auth_token,
    ) + opt_item(headers.x_bearer_token) + opt_item(headers.bearer_token) + opt_item(
        headers.token,
    );
    let tok = trim(mode.1);
    from_headers + trimmed_nonblank(json_values) + body_candidate(body_text) + if mode.0 == 1
        && tok.len() > 0 {
        token_forms(tok)
    } else {
        Seq::empty()
    }
}

/// The authorization values to try after a reply: all candidates
/// expanded, trimmed, without blanks and repeats.
pub open spec fn auth_candidates(
    host: Seq<char>,
    headers: AuthHeaders,
    json_values: Seq<Seq<char>>,
    body_text: Option<Seq<char>>,
    mode: (u8, Seq<char>),
) -> Seq<Seq<char>> {
    dedup_keep_first(
        trimmed_nonblank(expanded_all(host, raw_candidates(headers, json_values, body_text, mode))),
    )
}

fn push_header_value(out: &mut Vec<String>, v: &Option<String>)
    ensures
        string_views(final(out)@) == string_views(old(out)@) + opt_item(*v),
{
    let ghost before = string_views(out@);
    match nonempty_trimmed_vec(v) {
        Some(t) => {
            out.push(string_of(&t));
            assert(string_views(out@) =~= before + seq![t@]);
        },
        None => {
            assert(string_views(out@) =~= before + Seq::<Seq<char>>::empty());
        },
    }
}

fn trimmed_nonblank_vec(xs: &Vec<String>) -> (r: Vec<String>)
    ensures
        string_views(r@) == trimmed_nonblank(string_views(xs@)),
{
    let ghost vs = string_views(xs@);
    let mut out: Vec<String> = Vec::new();
    let mut i: usize = 0;
    while i < xs.len()
        invariant
            0 <= i <= xs.len(),
            vs == string_views(xs@),
            string_views(out@) == trimmed_nonblank(vs.subrange(0, i as int)),
        decreases xs.len() - i,
    {
        assert(vs.subrange(0, i + 1).drop_last() =~= vs.subrange(0, i as int));
        assert(vs.subrange(0, i + 1).last() == xs@[i as int]@);
        let t = trim_vec(&chars_of(xs[i].as_str()));
        if t.len() > 0 {
            let ghost before = string_views(out@);
            out.push(string_of(&t));
            assert(string_views(out@) =~= before.push(t@));
        }
        i = i + 1;
    }
    assert(vs.subrange(0, xs@.len() as int) =~= vs);
    out
}

pub fn collect_xup_auth_candidates(
    host: &str,
    headers: &AuthHeaders,
    json_values: &Vec<String>,
    body_text: Option<&str>,
    mode: &XAuthMode,
) -> (r: Vec<String>)
    ensures
        string_views(r@) == auth_candidates(
            host@,
            *headers,
            string_views(json_values@),
            match body_text {
                Some(t) => Some(t@),
                None => None,
            },
            mode_view(*mode),
        ),
{
    let mut raws: Vec<String> = Vec::new();
    push_header_value(&mut raws, &headers.authorization);
    push_header_value(&mut raws, &headers.location);
    push_header_value(&mut raws, &headers.x_auth_token);
    push_header_value(&mut raws, &headers.x_bearer_token);
    push_header_value(&mut raws, &headers.bearer_token);
    push_header_value(&mut raws, &headers.token);
    let ghost before_json = string_views(raws@);
    let tj = trimmed_nonblank_vec(json_values);
    let mut k: usize = 0;
    while k < tj.len()
        invariant
            0 <= k <= tj.len(),
            string_views(raws@) == before_json + string_views(tj@).subrange(0, k as int),
        decreases tj.len() - k,
    {
        let ghost b = string_views(raws@);
        raws.push(tj[k].clone());
        assert(string_views(raws@) =~= b.push(tj@[k as int]@));
        assert(string_views(tj@).subrange(0, k + 1) =~= string_views(tj@).subrange(0, k as int).push(
            tj@[k as int]@,
        ));
        k = k + 1;
    }
    assert(string_views(tj@).subrange(0, tj@.len() as int) =~= string_views(tj@));
    let ghost before_body = string_views(raws@);
    match body_text {
        Some(t) => {
            let c = trim_vec(&chars_of(t));
            if c.len() > 0 && utf8_len_at_most(&c, 1024) && c[0] != '{' && c[0] != '[' && c[0]
                != '<' {
                raws.push(string_of(&c));
                assert(string_views(raws@) =~= before_body + seq![c@]);
            } else {
                assert(string_views(raws@) =~= before_body + Seq::<Seq<char>>::empty());
            }
        },
        None => {
            assert(string_views(raws@) =~= before_body + Seq::<Seq<char>>::empty());
        },
    }
    let ghost before_mode = string_views(raws@);
    match mode {
        XAuthMode::Bearer(token) => {
            let t = trim_vec(&chars_of(token.as_str()));
            if t.len() > 0 {
                push_token_forms(&mut raws, &t);
            } else {
                assert(string_views(raws@) =~= before_mode + Seq::<Seq<char>>::empty());
            }
        },
        _ => {
            assert(string_views(raws@) =~= before_mode + Seq::<Seq<char>>::empty());
        },
    }
    let ghost rv = string_views(raws@);
    assert(rv =~= raw_candidates(
        *headers,
        string_views(json_values@),
        match body_text {
            Some(t) => Some(t@),
            None => None,
        },
        mode_view(*mode),
    ));
    let mut expanded: Vec<String> = Vec::new();
    let mut i: usize = 0;
    while i < raws.len()
        invariant
            0 <= i <= raws.len(),
            rv == string_views(raws@),
            string_views(expanded@) == expanded_all(host@, rv.subrange(0, i as int)),
        decreases raws.len() - i,
    {
        assert(rv.subrange(0, i + 1).drop_last() =~= rv.subrange(0, i as int));
        assert(rv.subrange(0, i + 1).last() == raws@[i as int]@);
        let more = expand_xup_auth_candidate(host, raws[i].as_str());
        let ghost b = string_views(expanded@);
        let mut j: usize = 0;
        while j < more.len()
            invariant
                0 <= j <= more.len(),
                string_views(expanded@) == b + string_views(more@).subrange(0, j as int),
            decreases more.len() - j,
        {
            let ghost bb = string_views(expanded@);
            expanded.push(more[j].clone());
            assert(string_views(expanded@) =~= bb.push(more@[j as int]@));
            assert(string_views(more@).subrange(0, j + 1) =~= string_views(more@).subrange(
                0,
                j as int,
            ).push(more@[j as int]@));
            j = j + 1;
        }
        assert(string_views(more@).subrange(0, more@.len() as int) =~= string_views(more@));
        i = i + 1;
    }
    assert(rv.subrange(0, raws@.len() as int) =~= rv);
    dedup_ignore_list(trimmed_nonblank_vec(&expanded))
}

/// What a downloaded payload checks out as: when an MD5 is expected and
/// the bytes do not have it, their gzip decoding must have it and is used
/// instead; when a (non-zero) size is expected, the payload or the raw
/// bytes must have it.
pub open spec fn payload_check(
    rel: Seq<char>,
    expected_md5: Option<Seq<char>>,
    expected_size: Option<u64>,
    raw: Seq<u8>,
) -> Result<Seq<u8>, Seq<char>> {
    let raw_md5 = hex_lower(md5_digest(raw));
    let data: Result<Seq<u8>, Seq<char>> = match expected_md5 {
        None => Ok(raw),
        Some(e) => if eq_ignore_ascii_case(raw_md5, e) {
            Ok(raw)
        } else {
            let mismatch = "MD5 mismatch for '"@ + rel + "': expected "@ + e + ", got "@ + raw_md5;
            match gunzipped(raw) {
                Some(d) => if eq_ignore_ascii_case(hex_lower(md5_digest(d)), e) {
                    Ok(d)
                } else {
                    Err(mismatch)
                },
                None => Err(mismatch),
            }
        },
    };
    match data {
        Err(m) => Err(m),
        Ok(d) => match expected_size {
            Some(sz) => if sz > 0 && d.len() != sz && raw.len() != sz {
                Err(
                    "Size mismatch for '"@ + rel + "': expected "@ + dec(sz as nat) + ", got "@
                        + dec(d.len()),
                )
            } else {
                Ok(d)
            },
            None => Ok(d),
        },
    }
}

pub fn validate_download_payload(task: &XDownloadTask, raw: &[u8]) -> (r: Result<Vec<u8>, String>)
    ensures
        match payload_check(
            task.rel_path@,
            opt_view(task.expected_md5),
            task.expected_size,
            raw@,
        ) {
            Ok(d) => r matches Ok(x) && x@ == d,
            Err(e) => r matches Err(x) && x@ == e,
        },
{
    let raw_len = raw.len();
    assert(raw_len == raw@.len());
    let mut data: Vec<u8> = copy_bytes(raw);
    match &task.expected_md5 {
        Some(e) => {
            let raw_md5 = md5_hex(raw);
            let ec = chars_of(e.as_str());
            if !eq_ignore_ascii_case_exec(&chars_of(raw_md5.as_str()), &ec) {
                let mut m = chars_of("MD5 mismatch for '");
                push_all(&mut m, &chars_of(task.rel_path.as_str()));
                push_all(&mut m, &chars_of("': expected "));
                push_all(&mut m, &ec);
                push_all(&mut m, &chars_of(", got "));
                push_all(&mut m, &chars_of(raw_md5.as_str()));
                match gzip_decode(raw) {
                    Some(d) => {
                        let dm = md5_hex(&d);
                        if eq_ignore_ascii_case_exec(&chars_of(dm.as_str()), &ec) {
                            data = d;
                        } else {
                            return Err(string_of(&m));
                        }
                    },
                    None => {
                        return Err(string_of(&m));
                    },
                }
            }
        },
        None => {},
    }
    match task.expected_size {
        Some(sz) => {
            let actual = data.len();
            if sz > 0 && actual as u64 != sz && raw_len as u64 != sz {
                let mut m = chars_of("Size mismatch for '");
                push_all(&mut m, &chars_of(task.rel_path.as_str()));
                push_all(&mut m, &chars_of("': expected "));
                push_all(&mut m, &dec_vec(sz));
                push_all(&mut m, &chars_of(", got "));
                push_all(&mut m, &dec_vec(actual as u64));
                return Err(string_of(&m));
            }
        },
        None => {},
    }
    Ok(data)
}

/// An authenticated session with the server: the mode the server asked
/// for, the credentials, and the authorization values it handed out.
#[derive(Debug)]
pub struct XAuth {
    pub mode: XAuthMode,
    pub login: String,
    pub license_key: String,
    pub auth_header_candidates: Vec<String>,
}

/// How one request authenticates: an `Authorization` header value, basic
/// credentials, a bearer token, or nothing.
#[derive(Debug)]
pub enum XRequestAuth {
    Authorization(String),
    Basic,
    Bearer(String),
    Anonymous,
}

/// A way to send a request: its authentication, whether the user name and
/// key headers go along, and its label.
#[derive(Debug)]
pub struct XRequestStrategy {
    pub auth: XRequestAuth,
    pub include_user_key: bool,
    pub label: String,
}

/// A strategy as plain values: kind (0 authorization, 1 basic, 2 bearer,
/// 3 none), value, user-key flag, label.
pub open spec fn strategy_view(st: XRequestStrategy) -> (u8, Seq<char>, bool, Seq<char>) {
    match st.auth {
        XRequestAuth::Authorization(v) => (0, v@, st.include_user_key, st.label@),
        XRequestAuth::Basic => (1, Seq::empty(), st.include_user_key, st.label@),
        XRequestAuth::Bearer(t) => (2, t@, st.include_user_key, st.label@),
        XRequestAuth::Anonymous => (3, Seq::empty(), st.include_user_key, st.label@),
    }
}

pub open spec fn strategy_views(v: Seq<XRequestStrategy>) -> Seq<(u8, Seq<char>, bool, Seq<char>)> {
    v.map_values(|st: XRequestStrategy| strategy_view(st))
}

pub open spec fn bool_text(b: bool) -> Seq<char> {
    if b {
        "true"@
    } else {
        "false"@
    }
}

/// The key under which strategies count as the same.
pub open spec fn strategy_key(st: (u8, Seq<char>, bool, Seq<char>)) -> Seq<char> {
    if st.0 == 0 {
        "authorization:"@ + st.1 + "|"@ + bool_text(st.2)
    } else if st.0 == 1 {
        "basic|"@ + bool_text(st.2)
    } else if st.0 == 2 {
        "bearer:"@ + st.1 + "|"@ + bool_text(st.2)
    } else {
        "none|"@ + bool_text(st.2)
    }
}

/// The strategies without repeats (by key); the first of each stays.
pub open spec fn dedup_strategies(v: Seq<(u8, Seq<char>, bool, Seq<char>)>) -> Seq<
    (u8, Seq<char>, bool, Seq<char>),
>
    decreases v.len(),
{
    if v.len() == 0 {
        v
    } else {
        let d = dedup_strategies(v.drop_last());
        if exists|j: int| 0 <= j < d.len() && strategy_key(#[trigger] d[j]) == strategy_key(v.last()) {
            d
        } else {
            d.push(v.last())
        }
    }
}

/// The strategies for each authorization value: alone, then with the user
/// name and key.
pub open spec fn candidate_strategies(cands: Seq<Seq<char>>) -> Seq<(u8, Seq<char>, bool, Seq<char>)>
    decreases cands.len(),
{
    if cands.len() == 0 {
        Seq::empty()
    } else {
        let prev = candidate_strategies(cands.drop_last());
        let t = trim(cands.last());
        if t.len() > 0 {
            prev + seq![
                (0u8, t, false, "authorization-only"@),
                (0u8, t, true, "authorization+userkey"@),
            ]
        } else {
            prev
        }
    }
}

/// The strategies the mode adds: for bearer its token with and without the
/// user key (when not blank) then basic and user-key only; for basic,
/// basic then user-key only; for none, user-key only then basic.
pub open spec fn mode_strategies(mode: (u8, Seq<char>)) -> Seq<(u8, Seq<char>, bool, Seq<char>)> {
    let basic = seq![
        (1u8, Seq::<char>::empty(), true, "basic+userkey"@),
        (1u8, Seq::<char>::empty(), false, "basic-only"@),
    ];
    let userkey = seq![(3u8, Seq::<char>::empty(), true, "userkey-only"@)];
    if mode.0 == 1 {
        let t = trim(mode.1);
        let b = if t.len() > 0 {
            seq![(2u8, t, true, "bearer+userkey"@), (2u8, t, false, "bearer-only"@)]
        } else {
            Seq::empty()
        };
        b + basic + userkey
    } else if mode.0 == 0 {
        basic + userkey
    } else {
        userkey + basic
    }
}

/// The ways to try a request, in order, without repeats.
pub open spec fn request_strategies(cands: Seq<Seq<char>>, mode: (u8, Seq<char>)) -> Seq<
    (u8, Seq<char>, bool, Seq<char>),
> {
    dedup_strategies(candidate_strategies(cands) + mode_strategies(mode))
}

fn strategy(kind: u8, value: &[char], include_user_key: bool, label: &str) -> (r: XRequestStrategy)
    requires
        kind < 4,
    ensures
        strategy_view(r) == (kind, if kind == 0 || kind == 2 {
            value@
        } else {
            Seq::<char>::empty()
        }, include_user_key, label@),
{
    let auth = if kind == 0 {
        XRequestAuth::Authorization(string_of(value))
    } else if kind == 1 {
        XRequestAuth::Basic
    } else if kind == 2 {
        XRequestAuth::Bearer(string_of(value))
    } else {
        XRequestAuth::Anonymous
    };
    XRequestStrategy { auth, include_user_key, label: string_of(&chars_of(label)) }
}

fn strategy_key_vec(st: &XRequestStrategy) -> (r: Vec<char>)
    ensures
        r@ == strategy_key(strategy_view(*st)),
{
    let flag = if st.include_user_key {
        chars_of("true")
    } else {
        chars_of("false")
    };
    let mut v = match &st.auth {
        XRequestAuth::Authorization(x) => {
            let mut v = chars_of("authorization:");
            push_all(&mut v, &chars_of(x.as_str()));
            push_all(&mut v, &chars_of("|"));
            v
        },
        XRequestAuth::Basic => chars_of("basic|"),
        XRequestAuth::Bearer(t) => {
            let mut v = chars_of("bearer:");
            push_all(&mut v, &chars_of(t.as_str()));
            push_all(&mut v, &chars_of("|"));
            v
        },
        XRequestAuth::Anonymous => chars_of("none|"),
    };
    push_all(&mut v, &flag);
    v
}

pub fn build_xup_request_strategies(auth: &XAuth) -> (r: Vec<XRequestStrategy>)
    ensures
        strategy_views(r@) == request_strategies(
            string_views(auth.auth_header_candidates@),
            mode_view(auth.mode),
        ),
{
    let ghost cs = string_views(auth.auth_header_candidates@);
    let mut all: Vec<XRequestStrategy> = Vec::new();
    let mut i: usize = 0;
    while i < auth.auth_header_candidates.len()
        invariant
            0 <= i <= auth.auth_header_candidates.len(),
            cs == string_views(auth.auth_header_candidates@),
            strategy_views(all@) == candidate_strategies(cs.subrange(0, i as int)),
        decreases auth.auth_header_candidates.len() - i,
    {
        assert(cs.subrange(0, i + 1).drop_last() =~= cs.subrange(0, i as int));
        assert(cs.subrange(0, i + 1).last() == auth.auth_header_candidates@[i as int]@);
        let t = trim_vec(&chars_of(auth.auth_header_candidates[i].as_str()));
        if t.len() > 0 {
            let ghost b = strategy_views(all@);
            all.push(strategy(0, &t, false, "authorization-only"));
            all.push(strategy(0, &t, true, "authorization+userkey"));
            assert(strategy_views(all@) =~= b + seq![
                (0u8, t@, false, "authorization-only"@),
                (0u8, t@, true, "authorization+userkey"@),
            ]);
        }
        i = i + 1;
    }
    assert(cs.subrange(0, cs.len() as int) =~= cs);
    let ghost before_mode = strategy_views(all@);
    let empty: Vec<char> = Vec::new();
    match &auth.mode {
        XAuthMode::Bearer(token) => {
            let t = trim_vec(&chars_of(token.as_str()));
            if t.len() > 0 {
                all.push(strategy(2, &t, true, "bearer+userkey"));
                all.push(strategy(2, &t, false, "bearer-only"));
            }
            all.push(strategy(1, &empty, true, "basic+userkey"));
            all.push(strategy(1, &empty, false, "basic-only"));
            all.push(strategy(3, &empty, true, "userkey-only"));
        },
        XAuthMode::Basic => {
            all.push(strategy(1, &empty, true, "basic+userkey"));
            all.push(strategy(1, &empty, false, "basic-only"));
            all.push(strategy(3, &empty, true, "userkey-only"));
        },
        XAuthMode::Anonymous => {
            all.push(strategy(3, &empty, true, "userkey-only"));
            all.push(strategy(1, &empty, true, "basic+userkey"));
            all.push(strategy(1, &empty, false, "basic-only"));
        },
    }
    assert(strategy_views(all@) =~= before_mode + mode_strategies(mode_view(auth.mode)));
    let ghost av = strategy_views(all@);
    let n = all.len();
    let mut rest = all;
    let mut out: Vec<XRequestStrategy> = Vec::new();
    let mut keys: Vec<Vec<char>> = Vec::new();
    assert(av.subrange(0, 0) =~= Seq::<(u8, Seq<char>, bool, Seq<char>)>::empty());
    assert(strategy_views(rest@) =~= av.subrange(0, n as int));
    while rest.len() > 0
        invariant
            rest.len() <= n,
            n == av.len(),
            strategy_views(rest@) == av.subrange((n - rest.len()) as int, n as int),
            strategy_views(out@) == dedup_strategies(av.subrange(0, (n - rest.len()) as int)),
            keys@.len() == out@.len(),
            forall|j: int| 0 <= j < keys@.len() ==> #[trigger] keys@[j]@ == strategy_key(strategy_view(out@[j])),
        decreases rest.len(),
    {
        let ghost k = (n - rest.len()) as int;
        let ghost rv = strategy_views(rest@);
        let st = rest.remove(0);
        assert(strategy_view(st) == rv[0]);
        assert(av[k] == rv[0]);
        assert(strategy_views(rest@) =~= rv.drop_first());
        assert(av.subrange(k, n as int).drop_first() =~= av.subrange(k + 1, n as int));
        assert(av.subrange(0, k + 1).drop_last() =~= av.subrange(0, k));
        assert(av.subrange(0, k + 1).last() == av[k]);
        let key = strategy_key_vec(&st);
        let ghost d = strategy_views(out@);
        let mut seen = false;
        let mut j: usize = 0;
        while j < keys.len()
            invariant
                0 <= j <= keys.len(),
                keys@.len() == out@.len(),
                d == strategy_views(out@),
                forall|m: int| 0 <= m < keys@.len() ==> #[trigger] keys@[m]@ == strategy_key(strategy_view(out@[m])),
                seen == exists|m: int| 0 <= m < j && strategy_key(#[trigger] d[m]) == key@,
            decreases keys.len() - j,
        {
            assert(d[j as int] == strategy_view(out@[j as int]));
            if crate::text::eq_chars(&keys[j], &key) {
                seen = true;
            }
            j = j + 1;
        }
        if !seen {
            out.push(st);
            keys.push(key);
            assert(strategy_views(out@) =~= d.push(av[k]));
        }
    }
    assert(av.subrange(0, n as int) =~= av);
    out
}

/// What a preview of an X-Updater update shows.
#[derive(Debug)]
pub struct AddonUpdatePreview {
    pub provider: String,
    pub item_type: String,
    pub folder_name: String,
    pub local_version: Option<String>,
    pub target_version: Option<String>,
    pub selected_channel: String,
    pub available_channels: Vec<String>,
    pub changelog: Option<String>,
}

/// The credentials used for a preview: the given ones (trimmed, when not
/// blank), else the profile's; an error names what is missing.
pub open spec fn preview_credentials(
    login_override: Option<String>,
    key_override: Option<String>,
    profile: XUpdaterProfile,
) -> Result<(Seq<char>, Seq<char>), Seq<char>> {
    let login = match nonempty_trimmed(login_override) {
        Some(l) => Some(l),
        None => opt_view(profile.login),
    };
    let key = match nonempty_trimmed(key_override) {
        Some(k) => Some(k),
        None => opt_view(profile.license_key),
    };
    match login {
        None => Err("x-updater profile is missing login/username"@),
        Some(l) => match key {
            None => Err("x-updater profile is missing license key"@),
            Some(k) => Ok((l, k)),
        },
    }
}

pub fn choose_preview_credentials(
    login_override: &Option<String>,
    key_override: &Option<String>,
    profile: &XUpdaterProfile,
) -> (r: Result<(String, String), String>)
    ensures
        match preview_credentials(*login_override, *key_override, *profile) {
            Ok((l, k)) => r matches Ok((a, b)) && a@ == l && b@ == k,
            Err(e) => r matches Err(x) && x@ == e,
        },
{
    let login = match nonempty_trimmed_vec(login_override) {
        Some(l) => Some(string_of(&l)),
        None => copy_opt_string(&profile.login),
    };
    let key = match nonempty_trimmed_vec(key_override) {
        Some(k) => Some(string_of(&k)),
        None => copy_opt_string(&profile.license_key),
    };
    match login {
        None => Err(string_of(&chars_of("x-updater profile is missing login/username"))),
        Some(l) => match key {
            None => Err(string_of(&chars_of("x-updater profile is missing license key"))),
            Some(k) => Ok((l, k)),
        },
    }
}

/// Assembles the preview: the channels offered (stable when none), the
/// snapshot of the preferred channel of the first product, its version
/// (display version, else label) and changelog.
pub fn build_update_preview(
    item_type: &str,
    folder_name: &str,
    options: &SkunkUpdateOptions,
    selected_products: &Vec<XProduct>,
    local_version: Option<String>,
) -> (r: Result<AddonUpdatePreview, String>)
    ensures
        selected_products@.len() == 0 ==> (r matches Err(e) && e@
            == "x-updater returned no selectable products"@),
        selected_products@.len() > 0 ==> ({
            let ch = channel_of(opt_view(options.channel), options.use_beta);
            match selected_snapshot(selected_products@[0], snapshot_type_of(ch), true) {
                None => r matches Err(e) && e@ == "No usable snapshot found for selected product"@,
                Some(snap) => r matches Ok(p) && {
                    &&& p.provider@ == "x-updater"@
                    &&& p.item_type@ == item_type@
                    &&& p.folder_name@ == folder_name@
                    &&& opt_view(p.local_version) == opt_view(local_version)
                    &&& opt_view(p.target_version) == match snapshot_display(snap) {
                        Some(v) => Some(v),
                        None => snapshot_label(ch, snap),
                    }
                    &&& p.selected_channel@ == ch
                    &&& string_views(p.available_channels@) == if channels_offered(
                        selected_products@,
                    ).len() == 0 {
                        seq!["stable"@]
                    } else {
                        channels_offered(selected_products@)
                    }
                    &&& opt_view(p.changelog) == nonempty_trimmed(snap.full_desc)
                },
            }
        }),
{
    let channel = requested_channel(options);
    let mut available = collect_available_channels(selected_products.as_slice());
    if available.len() == 0 {
        available.push(string_of(&chars_of("stable")));
        assert(string_views(available@) =~= seq!["stable"@]);
    }
    if selected_products.len() == 0 {
        return Err(string_of(&chars_of("x-updater returned no selectable products")));
    }
    assert(opt_view(options.channel) == match options.channel {
        Some(c) => Some(c@),
        None => None,
    });
    let stype = channel_to_snapshot_type(channel.as_str());
    let snap = match select_snapshot(&selected_products[0], stype.as_str(), true) {
        None => {
            return Err(string_of(&chars_of("No usable snapshot found for selected product")));
        },
        Some(s) => s,
    };
    let target_version = match snapshot_display_version(snap) {
        Some(v) => Some(v),
        None => snapshot_version_label(channel.as_str(), snap),
    };
    let changelog = extract_snapshot_changelog(snap);
    Ok(
        AddonUpdatePreview {
            provider: string_of(&chars_of("x-updater")),
            item_type: string_of(&chars_of(item_type)),
            folder_name: string_of(&chars_of(folder_name)),
            local_version,
            target_version,
            selected_channel: channel,
            available_channels: available,
            changelog,
        },
    )
}

/// What to do with an authentication reply.
#[derive(Debug, PartialEq, Eq, Structural)]
pub enum AuthStep {
    /// The reply authenticates.
    Done,
    /// Wait this many seconds and try again.
    RetryAfter(u64),
    /// Authentication failed.
    Fail,
    /// Try again at once.
    Again,
}

/// The seconds to wait that a `retry-after` value asks for, kept between
/// 1 and 10; 1 when there is none or it is no number.
pub open spec fn retry_seconds(retry_after: Option<Seq<char>>) -> u64 {
    match retry_after {
        Some(t) => match parse_unsigned(trim(t), u64::MAX as nat) {
            Some(v) => if v < 1 {
                1
            } else if v > 10 {
                10
            } else {
                v as u64
            },
            None => 1,
        },
        None => 1,
    }
}

/// The decision after the authentication attempt `attempt` (counting from
/// 1, of `max_attempts`): a success other than 202 authenticates; 202 and
/// 429 wait and retry while attempts are left; other client and server
/// errors fail; anything else tries again.
pub open spec fn auth_step(attempt: u64, max_attempts: u64, status: u16, retry_after: Option<Seq<char>>) -> AuthStep {
    if 200 <= status <= 299 && status != 202 {
        AuthStep::Done
    } else if status == 202 || status == 429 {
        if attempt < max_attempts {
            AuthStep::RetryAfter(retry_seconds(retry_after))
        } else {
            AuthStep::Again
        }
    } else if 400 <= status <= 599 {
        AuthStep::Fail
    } else {
        AuthStep::Again
    }
}

pub fn auth_response_step(attempt: u64, max_attempts: u64, status: u16, retry_after: Option<&str>) -> (r:
    AuthStep)
    ensures
        r == auth_step(
            attempt,
            max_attempts,
            status,
            match retry_after {
                Some(t) => Some(t@),
                None => None,
            },
        ),
{
    if 200 <= status && status <= 299 && status != 202 {
        AuthStep::Done
    } else if status == 202 || status == 429 {
        if attempt < max_attempts {
            let secs = match retry_after {
                Some(t) => match crate::num::parse_u64(&trim_vec(&chars_of(t))) {
                    Some(v) => if v < 1 {
                        1
                    } else if v > 10 {
                        10
                    } else {
                        v
                    },
                    None => 1,
                },
                None => 1,
            };
            AuthStep::RetryAfter(secs)
        } else {
            AuthStep::Again
        }
    } else if 400 <= status && status <= 599 {
        AuthStep::Fail
    } else {
        AuthStep::Again
    }
}

/// The state of shortening an error body: the text so far, whether it
/// ends in a space, and whether it is full.
pub open spec fn snippet_state(s: Seq<char>) -> (Seq<char>, bool, bool)
    decreases s.len(),
{
    if s.len() == 0 {
        (Seq::empty(), false, false)
    } else {
        let (out, last_space, full) = snippet_state(s.drop_last());
        let ch = s.last();
        if full {
            (out, last_space, full)
        } else if is_ws(ch) {
            if last_space {
                (out, true, false)
            } else {
                (out.push(' '), true, false)
            }
        } else {
            let o = out.push(ch);
            (o, false, vstd::utf8::encode_utf8(o).len() >= 180)
        }
    }
}

/// An error body shortened for a message: runs of white space made one
/// space, cut after the character that reaches 180 bytes, trimmed.
pub open spec fn error_snippet(s: Seq<char>) -> Seq<char> {
    trim(snippet_state(s).0)
}

pub fn compact_error_snippet(input: &str) -> (r: String)
    ensures
        r@ == error_snippet(input@),
{
    let s = chars_of(input);
    let mut out: Vec<char> = Vec::new();
    let mut last_space = false;
    let mut bytes: usize = 0;
    let mut i: usize = 0;
    assert(s@.subrange(0, 0) =~= Seq::<char>::empty());
    assert(vstd::utf8::encode_utf8(Seq::<char>::empty()) =~= Seq::<u8>::empty());
    while i < s.len()
        invariant
            0 <= i <= s.len(),
            s@ == input@,
            snippet_state(s@.subrange(0, i as int)) == (out@, last_space, false),
            bytes == vstd::utf8::encode_utf8(out@).len(),
            bytes <= 180,
        decreases s.len() - i,
    {
        let ch = s[i];
        assert(s@.subrange(0, i + 1).drop_last() =~= s@.subrange(0, i as int));
        assert(s@.subrange(0, i + 1).last() == ch);
        if is_ws_char(ch) {
            if !last_space {
                proof {
                    crate::text::lemma_encode_utf8_push(out@, ' ');
                }
                out.push(' ');
                bytes = bytes + 1;
                last_space = true;
            }
            i = i + 1;
        } else {
            proof {
                crate::text::lemma_encode_utf8_push(out@, ch);
            }
            let w = crate::text::utf8_width_of(ch);
            out.push(ch);
            bytes = bytes + w;
            last_space = false;
            i = i + 1;
            if bytes >= 180 {
                proof {
                    lemma_snippet_full(s@, i as int);
                }
                assert(snippet_state(s@) == (out@, false, true));
                return string_of(&trim_vec(&out));
            }
        }
    }
    assert(s@.subrange(0, s@.len() as int) =~= s@);
    string_of(&trim_vec(&out))
}

/// Once the snippet is full, later characters change nothing.
proof fn lemma_snippet_full(s: Seq<char>, i: int)
    requires
        0 <= i <= s.len(),
        snippet_state(s.subrange(0, i)).2,
    ensures
        snippet_state(s) == snippet_state(s.subrange(0, i)),
    decreases s.len() - i,
{
    if i < s.len() {
        assert(s.subrange(0, i + 1).drop_last() =~= s.subrange(0, i));
        lemma_snippet_full(s, i + 1);
    } else {
        assert(s.subrange(0, i) =~= s);
    }
}

/// The attempts a request or download made and the last error met; the
/// error it ends with is built from them.
#[derive(Debug)]
pub struct AttemptLog {
    pub attempts: Vec<String>,
    pub last_error: Option<String>,
}

/// The error a run of attempts ends with: the last error (or the
/// fallback), and the attempts joined by `, ` when there were any.
pub open spec fn attempts_error(
    attempts: Seq<Seq<char>>,
    last_error: Option<Seq<char>>,
    fallback: Seq<char>,
) -> Seq<char> {
    let head = match last_error {
        Some(e) => e,
        None => fallback,
    };
    if attempts.len() == 0 {
        head
    } else {
        head + ". Attempts: "@ + join(attempts, ", "@)
    }
}

/// The attempt entry of a reply that was not a success, and the error it
/// gives: `prefix` (which ends in `HTTP `) + the status, with the body
/// snippet in brackets when there is one.
pub open spec fn status_attempt(label: Seq<char>, status: Seq<char>, snippet: Seq<char>) -> Seq<char> {
    label + ":"@ + status + ":"@ + snippet
}

pub open spec fn status_error(prefix: Seq<char>, status: Seq<char>, snippet: Seq<char>) -> Seq<char> {
    prefix + status + if snippet.len() == 0 {
        Seq::empty()
    } else {
        " ("@ + snippet + ")"@
    }
}

impl AttemptLog {
    pub fn new() -> (r: Self)
        ensures
            r.attempts@.len() == 0,
            r.last_error is None,
    {
        AttemptLog { attempts: Vec::new(), last_error: None }
    }

    /// Records an attempt that failed with the given entry and error.
    pub fn record(&mut self, entry: String, error: String)
        ensures
            string_views(final(self).attempts@) == string_views(old(self).attempts@).push(entry@),
            opt_view(final(self).last_error) == Some(error@),
    {
        let ghost b = string_views(self.attempts@);
        let ghost e = entry@;
        self.attempts.push(entry);
        assert(string_views(self.attempts@) =~= b.push(e));
        self.last_error = Some(error);
    }

    /// Records a reply that was not a success.
    pub fn record_status(&mut self, label: &str, status: &str, body: &str, error_prefix: &str)
        ensures
            ({
                let snippet = error_snippet(body@);
                &&& string_views(final(self).attempts@) == string_views(old(self).attempts@).push(
                    status_attempt(label@, status@, snippet),
                )
                &&& opt_view(final(self).last_error) == Some(
                    status_error(error_prefix@, status@, snippet),
                )
            }),
    {
        let snippet = compact_error_snippet(body);
        let sc = chars_of(snippet.as_str());
        let mut entry = chars_of(label);
        push_all(&mut entry, &chars_of(":"));
        push_all(&mut entry, &chars_of(status));
        push_all(&mut entry, &chars_of(":"));
        push_all(&mut entry, &sc);
        let mut err = chars_of(error_prefix);
        push_all(&mut err, &chars_of(status));
        if sc.len() > 0 {
            push_all(&mut err, &chars_of(" ("));
            push_all(&mut err, &sc);
            push_all(&mut err, &chars_of(")"));
        }
        assert(err@ =~= status_error(error_prefix@, status@, snippet@));
        self.record(string_of(&entry), string_of(&err));
    }

    /// The error the attempts end with.
    pub fn final_error(&self, fallback: &str) -> (r: String)
        ensures
            r@ == attempts_error(string_views(self.attempts@), opt_view(self.last_error), fallback@),
    {
        let mut v = match &self.last_error {
            Some(e) => chars_of(e.as_str()),
            None => chars_of(fallback),
        };
        if self.attempts.len() > 0 {
            push_all(&mut v, &chars_of(". Attempts: "));
            let mut parts: Vec<Vec<char>> = Vec::new();
            let ghost av = string_views(self.attempts@);
            let mut i: usize = 0;
            while i < self.attempts.len()
                invariant
                    0 <= i <= self.attempts.len(),
                    av == string_views(self.attempts@),
                    seqs(parts@) == av.subrange(0, i as int),
                decreases self.attempts.len() - i,
            {
                let ghost b = seqs(parts@);
                parts.push(chars_of(self.attempts[i].as_str()));
                assert(seqs(parts@) =~= b.push(av[i as int]));
                assert(av.subrange(0, i + 1) =~= av.subrange(0, i as int).push(av[i as int]));
                i = i + 1;
            }
            assert(av.subrange(0, av.len() as int) =~= av);
            push_all(&mut v, &join_all(&parts, &chars_of(", ")));
        }
        string_of(&v)
    }
}

} // verus!
