//! The Zibo update plan around the network work: the context built from the
//! local version and the release catalog, what a probe of the download
//! folders changes in it, and what an update run does with the result.

use vstd::prelude::*;
use crate::text::{chars_of, contains, push_all, string_of};
use crate::zibo::{
    latest_release_from_catalog, local_version_text, newest_index, plan_spec, plan_zibo_update,
    release_views, releases_for_plan, version_text, DriveSource, LocalVersionState,
    PlannedZiboUpdate, ReleaseFilter, VersionTriple, ZiboInstallMode, ZiboManualDownloadReason,
    ZiboRelease, drive_probe_contains_quota_exceeded, drive_probe_failed_only_due_to_missing_files,
};
use crate::skunk::SkunkUpdateResult;

verus! {

/// The forum page that lists other places to download the aircraft.
pub open spec fn manual_fallback_url() -> Seq<char> {
    "https://forums.x-plane.org/forums/topic/185685-alternative-download-links-zibo-install-guide-training-checklist/"@
}

fn text_of(s: &str) -> (r: String)
    ensures
        r@ == s@,
{
    string_of(&chars_of(s))
}

pub fn zibo_manual_fallback_url() -> (r: String)
    ensures
        r@ == manual_fallback_url(),
{
    text_of(
        "https://forums.x-plane.org/forums/topic/185685-alternative-download-links-zibo-install-guide-training-checklist/",
    )
}

/// An archive found in one of the download folders.
#[derive(Debug, Clone)]
pub struct ResolvedDriveFile {
    pub source: DriveSource,
    pub file_id: String,
    pub file_name: String,
    pub total_bytes: u64,
    pub web_view_link: Option<String>,
}

/// Everything an update plan and an update run need to know.
#[derive(Debug, Clone)]
pub struct ZiboPlanContext {
    pub local_state: LocalVersionState,
    pub latest_release: ZiboRelease,
    pub install_mode: Option<ZiboInstallMode>,
    pub primary_release: Option<ZiboRelease>,
    pub follow_up_patch: Option<ZiboRelease>,
    pub drive_files: Vec<ResolvedDriveFile>,
    pub preferred_source_url: String,
    pub manual_download_url: Option<String>,
    pub manual_download_reason: Option<ZiboManualDownloadReason>,
    pub warnings: Vec<String>,
    pub has_update: bool,
    pub estimated_download_bytes: u64,
}

pub open spec fn opt_release(o: Option<ZiboRelease>) -> Option<(VersionTriple, Seq<char>)> {
    match o {
        Some(r) => Some(r@),
        None => None,
    }
}

pub open spec fn opt_text(o: Option<String>) -> Option<Seq<char>> {
    match o {
        Some(s) => Some(s@),
        None => None,
    }
}

pub open spec fn texts(v: Seq<String>) -> Seq<Seq<char>> {
    v.map_values(|s: String| s@)
}

pub open spec fn missing_version_warning() -> Seq<char> {
    "Local Zibo version.txt was not found; XFast Manager will use a clean install flow."@
}

pub open spec fn invalid_version_warning(err: Seq<char>) -> Seq<char> {
    "Local Zibo version.txt could not be parsed; XFast Manager will use a clean install flow. "@
        + err
}

/// The warnings of a fresh plan: when an update is planned and the local
/// version could not be read, one warning that says why.
pub open spec fn plan_warnings(local: LocalVersionState, planned: bool) -> Seq<Seq<char>> {
    if !planned {
        seq![]
    } else {
        match local {
            LocalVersionState::Missing => seq![missing_version_warning()],
            LocalVersionState::Invalid(e) => seq![invalid_version_warning(e@)],
            LocalVersionState::Parsed(_) => seq![],
        }
    }
}

fn copy_release(r: &ZiboRelease) -> (c: ZiboRelease)
    ensures
        c@ == r@,
{
    ZiboRelease { version: r.version, title: r.title.clone() }
}

fn copy_opt_release(o: &Option<ZiboRelease>) -> (c: Option<ZiboRelease>)
    ensures
        opt_release(c) == opt_release(*o),
{
    match o {
        Some(r) => Some(copy_release(r)),
        None => None,
    }
}

fn copy_local_state(s: &LocalVersionState) -> (c: LocalVersionState)
    ensures
        c == *s,
{
    match s {
        LocalVersionState::Parsed(v) => LocalVersionState::Parsed(*v),
        LocalVersionState::Missing => LocalVersionState::Missing,
        LocalVersionState::Invalid(e) => LocalVersionState::Invalid(e.clone()),
    }
}

/// The shape of a plan as `plan_spec` gives it.
pub type PlanView = (ZiboInstallMode, (VersionTriple, Seq<char>), Option<(VersionTriple, Seq<char>)>);

/// A context as built before the download folders are probed: no files
/// found yet, no manual download, and the warnings of `plan_warnings`.
pub open spec fn fresh_context(
    ctx: ZiboPlanContext,
    local: LocalVersionState,
    latest: (VersionTriple, Seq<char>),
    plan: Option<PlanView>,
    preferred: Seq<char>,
) -> bool {
    &&& ctx.local_state == local
    &&& ctx.latest_release@ == latest
    &&& ctx.has_update == plan is Some
    &&& match plan {
        Some(p) => {
            &&& ctx.install_mode == Some(p.0)
            &&& opt_release(ctx.primary_release) == Some(p.1)
            &&& opt_release(ctx.follow_up_patch) == p.2
        },
        None => {
            &&& ctx.install_mode is None
            &&& ctx.primary_release is None
            &&& ctx.follow_up_patch is None
        },
    }
    &&& ctx.drive_files@.len() == 0
    &&& ctx.preferred_source_url@ == preferred
    &&& ctx.manual_download_url is None
    &&& ctx.manual_download_reason is None
    &&& texts(ctx.warnings@) == plan_warnings(local, plan is Some)
    &&& ctx.estimated_download_bytes == 0
}

pub open spec fn opt_plan_view(p: Option<&PlannedZiboUpdate>) -> Option<PlanView> {
    match p {
        Some(u) => Some(u@),
        None => None,
    }
}

/// The context of a plan before the download folders are probed.
pub fn build_plan_context(
    local_state: &LocalVersionState,
    latest_release: ZiboRelease,
    planned_update: Option<&PlannedZiboUpdate>,
    preferred_manual_download_url: String,
) -> (r: ZiboPlanContext)
    ensures
        fresh_context(
            r,
            *local_state,
            latest_release@,
            opt_plan_view(planned_update),
            preferred_manual_download_url@,
        ),
{
    let mut warnings: Vec<String> = Vec::new();
    if planned_update.is_some() {
        match local_state {
            LocalVersionState::Missing => {
                warnings.push(
                    text_of(
                        "Local Zibo version.txt was not found; XFast Manager will use a clean install flow.",
                    ),
                );
            },
            LocalVersionState::Invalid(err) => {
                let mut m = chars_of(
                    "Local Zibo version.txt could not be parsed; XFast Manager will use a clean install flow. ",
                );
                push_all(&mut m, &chars_of(err.as_str()));
                warnings.push(string_of(&m));
            },
            LocalVersionState::Parsed(_) => {},
        }
    }
    assert(texts(warnings@) =~= plan_warnings(*local_state, planned_update.is_some()));
    match planned_update {
        None => ZiboPlanContext {
            local_state: copy_local_state(local_state),
            latest_release,
            install_mode: None,
            primary_release: None,
            follow_up_patch: None,
            drive_files: Vec::new(),
            preferred_source_url: preferred_manual_download_url,
            manual_download_url: None,
            manual_download_reason: None,
            warnings: Vec::new(),
            has_update: false,
            estimated_download_bytes: 0,
        },
        Some(update) => ZiboPlanContext {
            local_state: copy_local_state(local_state),
            latest_release,
            install_mode: Some(update.install_mode),
            primary_release: Some(copy_release(&update.primary_release)),
            follow_up_patch: copy_opt_release(&update.follow_up_patch),
            drive_files: Vec::new(),
            preferred_source_url: preferred_manual_download_url,
            manual_download_url: None,
            manual_download_reason: None,
            warnings,
            has_update: true,
            estimated_download_bytes: 0,
        },
    }
}

/// The releases a plan downloads, in order.
pub open spec fn plan_downloads(plan: Option<PlanView>) -> Seq<(VersionTriple, Seq<char>)> {
    match plan {
        Some(p) => match p.2 {
            Some(f) => seq![p.1, f],
            None => seq![p.1],
        },
        None => seq![],
    }
}

/// The first step of a plan, before any network work on the download
/// folders: the context built from the local state and the catalog, and
/// the releases whose archives are to be looked up. Fails as `plan_spec`
/// does (an empty catalog, a branch without a full package).
pub fn zibo_plan_start(
    local_state: &LocalVersionState,
    releases: &[ZiboRelease],
    preferred_folder_url: &str,
) -> (r: Result<(ZiboPlanContext, Vec<ZiboRelease>), String>)
    ensures
        match plan_spec(*local_state, release_views(releases@)) {
            Err(e) => r matches Err(m) && m@ == e,
            Ok(p) => r matches Ok((ctx, probe)) && {
                let zero = VersionTriple { major: 0, minor: 0, patch: 0 };
                let li = newest_index(release_views(releases@), zero, ReleaseFilter::Any).unwrap();
                &&& fresh_context(
                    ctx,
                    *local_state,
                    release_views(releases@)[li],
                    p,
                    preferred_folder_url@,
                )
                &&& release_views(probe@) == plan_downloads(p)
            },
        },
{
    let latest = match latest_release_from_catalog(releases) {
        Ok(l) => l,
        Err(e) => return Err(e),
    };
    let planned = match plan_zibo_update(local_state, releases) {
        Ok(p) => p,
        Err(e) => return Err(e),
    };
    let pref = planned.as_ref();
    let probe = match pref {
        Some(u) => releases_for_plan(u),
        None => Vec::new(),
    };
    proof {
        let zero = VersionTriple { major: 0, minor: 0, patch: 0 };
        crate::zibo::lemma_newest_index(release_views(releases@), zero, ReleaseFilter::Any);
        let li = newest_index(release_views(releases@), zero, ReleaseFilter::Any).unwrap();
        assert(release_views(releases@)[li] == releases@[li]@);
        assert(release_views(probe@) =~= plan_downloads(opt_plan_view(pref)));
    }
    let ctx = build_plan_context(local_state, latest, pref, text_of(preferred_folder_url));
    Ok((ctx, probe))
}

/// The sum of the sizes of the found archives.
pub open spec fn files_bytes(files: Seq<ResolvedDriveFile>) -> int
    decreases files.len(),
{
    if files.len() == 0 {
        0
    } else {
        files_bytes(files.drop_last()) + files.last().total_bytes
    }
}

/// A failed probe that only failed because the archive is missing from the
/// folders (no request failed).
pub open spec fn probe_missing_only(m: Seq<char>) -> bool {
    contains(m, "was not found in Google Drive source"@) && !contains(m, "probe returned"@)
        && !contains(m, "Failed to probe Google Drive download"@) && !contains(
        m,
        "returned an error while searching"@,
    ) && !contains(m, "Failed to search"@)
}

pub open spec fn probe_quota_exceeded(m: Seq<char>) -> bool {
    contains(m, "reason=downloadQuotaExceeded"@)
}

pub open spec fn archive_missing_warning() -> Seq<char> {
    "The expected Zibo archive was not present in the Google Drive mirrors during the lightweight probe yet."@
}

pub open spec fn quota_warning() -> Seq<char> {
    "Google Drive reported that the download quota for the required Zibo package has been exceeded."@
}

/// The fields that a probe leaves as they were.
pub open spec fn same_plan_fields(a: ZiboPlanContext, b: ZiboPlanContext) -> bool {
    &&& a.local_state == b.local_state
    &&& a.latest_release@ == b.latest_release@
    &&& a.install_mode == b.install_mode
    &&& opt_release(a.primary_release) == opt_release(b.primary_release)
    &&& opt_release(a.follow_up_patch) == opt_release(b.follow_up_patch)
    &&& a.preferred_source_url@ == b.preferred_source_url@
    &&& a.has_update == b.has_update
}

fn sum_file_bytes(files: &Vec<ResolvedDriveFile>) -> (r: u64)
    requires
        files_bytes(files@) <= u64::MAX,
    ensures
        r == files_bytes(files@),
{
    let mut total: u64 = 0;
    let mut i: usize = 0;
    while i < files.len()
        invariant
            i <= files@.len(),
            total == files_bytes(files@.subrange(0, i as int)),
            files_bytes(files@) <= u64::MAX,
        decreases files@.len() - i,
    {
        proof {
            assert(files@.subrange(0, i + 1).drop_last() =~= files@.subrange(0, i as int));
            lemma_files_bytes_prefix(files@, i + 1);
        }
        total = total + files[i].total_bytes;
        i = i + 1;
    }
    assert(files@.subrange(0, i as int) =~= files@);
    total
}

proof fn lemma_files_bytes_prefix(files: Seq<ResolvedDriveFile>, n: int)
    requires
        0 <= n <= files.len(),
    ensures
        files_bytes(files.subrange(0, n)) <= files_bytes(files),
    decreases files.len() - n,
{
    if n < files.len() {
        lemma_files_bytes_prefix(files, n + 1);
        assert(files.subrange(0, n + 1).drop_last() =~= files.subrange(0, n));
    } else {
        assert(files.subrange(0, n) =~= files);
    }
}

/// What the probe of the download folders makes of a context. Without a
/// planned update nothing was probed and the context stays. Found archives
/// are recorded with their total size; an archive missing from the folders
/// or an exceeded download quota turns the plan into a manual download
/// from the forum page, with a warning; any other failure fails the plan,
/// with the cause after the message.
pub fn apply_drive_probe(context: ZiboPlanContext, probe: Result<Vec<ResolvedDriveFile>, String>) -> (r:
    Result<ZiboPlanContext, String>)
    requires
        probe matches Ok(files) ==> files_bytes(files@) <= u64::MAX,
    ensures
        !context.has_update ==> r == Ok::<ZiboPlanContext, String>(context),
        context.has_update ==> match probe {
            Ok(files) => r matches Ok(c) && {
                &&& same_plan_fields(c, context)
                &&& c.drive_files@ == files@
                &&& c.estimated_download_bytes == files_bytes(files@)
                &&& opt_text(c.manual_download_url) == opt_text(context.manual_download_url)
                &&& c.manual_download_reason == context.manual_download_reason
                &&& texts(c.warnings@) == texts(context.warnings@)
            },
            Err(m) => if probe_missing_only(m@) || probe_quota_exceeded(m@) {
                r matches Ok(c) && {
                    &&& same_plan_fields(c, context)
                    &&& c.drive_files@ == context.drive_files@
                    &&& c.estimated_download_bytes == context.estimated_download_bytes
                    &&& opt_text(c.manual_download_url) == Some(manual_fallback_url())
                    &&& c.manual_download_reason == Some(
                        if probe_missing_only(m@) {
                            ZiboManualDownloadReason::ReleasePage
                        } else {
                            ZiboManualDownloadReason::DriveLimit
                        },
                    )
                    &&& texts(c.warnings@) == texts(context.warnings@).push(
                        if probe_missing_only(m@) {
                            archive_missing_warning()
                        } else {
                            quota_warning()
                        },
                    )
                }
            } else {
                r matches Err(e) && e@ == "Failed to probe Zibo Google Drive availability: "@
                    + m@
            },
        },
{
    if !context.has_update {
        return Ok(context);
    }
    let mut ctx = context;
    match probe {
        Ok(files) => {
            let total = sum_file_bytes(&files);
            ctx.estimated_download_bytes = total;
            ctx.drive_files = files;
            Ok(ctx)
        },
        Err(m) => {
            if drive_probe_failed_only_due_to_missing_files(m.as_str()) {
                ctx.manual_download_url = Some(zibo_manual_fallback_url());
                ctx.manual_download_reason = Some(ZiboManualDownloadReason::ReleasePage);
                let ghost before = ctx.warnings@;
                ctx.warnings.push(
                    text_of(
                        "The expected Zibo archive was not present in the Google Drive mirrors during the lightweight probe yet.",
                    ),
                );
                assert(texts(ctx.warnings@) =~= texts(before).push(archive_missing_warning()));
                Ok(ctx)
            } else if drive_probe_contains_quota_exceeded(m.as_str()) {
                ctx.manual_download_url = Some(zibo_manual_fallback_url());
                ctx.manual_download_reason = Some(ZiboManualDownloadReason::DriveLimit);
                let ghost before = ctx.warnings@;
                ctx.warnings.push(
                    text_of(
                        "Google Drive reported that the download quota for the required Zibo package has been exceeded.",
                    ),
                );
                assert(texts(ctx.warnings@) =~= texts(before).push(quota_warning()));
                Ok(ctx)
            } else {
                let mut e = chars_of("Failed to probe Zibo Google Drive availability: ");
                push_all(&mut e, &chars_of(m.as_str()));
                Err(string_of(&e))
            }
        },
    }
}

/// The link a plan shows for the update: the first found archive's page,
/// else its folder, else the manual download page, else the preferred
/// folder.
pub open spec fn remote_module_url(ctx: ZiboPlanContext) -> Seq<char> {
    if ctx.drive_files@.len() > 0 {
        match ctx.drive_files@[0].web_view_link {
            Some(l) => l@,
            None => ctx.drive_files@[0].source.folder_url@,
        }
    } else {
        match ctx.manual_download_url {
            Some(u) => u@,
            None => ctx.preferred_source_url@,
        }
    }
}

pub fn plan_remote_module_url(context: &ZiboPlanContext) -> (r: String)
    ensures
        r@ == remote_module_url(*context),
{
    if context.drive_files.len() > 0 {
        match &context.drive_files[0].web_view_link {
            Some(l) => l.clone(),
            None => text_of(context.drive_files[0].source.folder_url),
        }
    } else {
        match &context.manual_download_url {
            Some(u) => u.clone(),
            None => context.preferred_source_url.clone(),
        }
    }
}

/// The update plan shown for a Zibo aircraft.
#[derive(Debug, Clone)]
pub struct ZiboUpdatePlan {
    pub provider: String,
    pub item_type: String,
    pub folder_name: String,
    pub local_version: Option<String>,
    pub remote_version: Option<String>,
    pub remote_module: Option<String>,
    pub manual_download_url: Option<String>,
    pub manual_download_reason: Option<String>,
    pub zibo_install_mode: Option<String>,
    pub remote_locked: bool,
    pub has_update: bool,
    pub estimated_download_bytes: u64,
    pub add_files: Vec<String>,
    pub replace_files: Vec<String>,
    pub delete_files: Vec<String>,
    pub skip_files: Vec<String>,
    pub warnings: Vec<String>,
    pub has_beta_config: bool,
}

pub open spec fn local_version_view(s: LocalVersionState) -> Option<Seq<char>> {
    match s {
        LocalVersionState::Parsed(v) => Some(version_text(v)),
        _ => None,
    }
}

pub open spec fn reason_text(r: ZiboManualDownloadReason) -> Seq<char> {
    match r {
        ZiboManualDownloadReason::DriveLimit => "drive-limit"@,
        ZiboManualDownloadReason::ReleasePage => "release-page"@,
    }
}

pub open spec fn mode_text(m: ZiboInstallMode) -> Seq<char> {
    match m {
        ZiboInstallMode::Patch => "patch"@,
        ZiboInstallMode::MajorClean => "major-clean"@,
    }
}

fn copy_texts(v: &Vec<String>) -> (r: Vec<String>)
    ensures
        texts(r@) == texts(v@),
{
    let mut out: Vec<String> = Vec::new();
    let mut i: usize = 0;
    while i < v.len()
        invariant
            i <= v@.len(),
            texts(out@) == texts(v@.subrange(0, i as int)),
        decreases v@.len() - i,
    {
        out.push(v[i].clone());
        assert(texts(v@.subrange(0, i + 1)) =~= texts(v@.subrange(0, i as int)).push(v@[i as int]@));
        assert(texts(out@) =~= texts(v@.subrange(0, i + 1)));
        i = i + 1;
    }
    assert(v@.subrange(0, i as int) =~= v@);
    out
}

/// The plan shown for a context: the provider `zibo`, the local and newest
/// versions, the link of `remote_module_url`, the manual download and
/// install mode as their plan values, and no file lists.
pub fn zibo_update_plan(item_type: &str, folder_name: &str, context: &ZiboPlanContext) -> (r:
    ZiboUpdatePlan)
    ensures
        r.provider@ == "zibo"@,
        r.item_type@ == item_type@,
        r.folder_name@ == folder_name@,
        opt_text(r.local_version) == local_version_view(context.local_state),
        opt_text(r.remote_version) == Some(version_text(context.latest_release.version)),
        opt_text(r.remote_module) == Some(remote_module_url(*context)),
        opt_text(r.manual_download_url) == opt_text(context.manual_download_url),
        opt_text(r.manual_download_reason) == match context.manual_download_reason {
            Some(m) => Some(reason_text(m)),
            None => None::<Seq<char>>,
        },
        opt_text(r.zibo_install_mode) == match context.install_mode {
            Some(m) => Some(mode_text(m)),
            None => None::<Seq<char>>,
        },
        !r.remote_locked,
        r.has_update == context.has_update,
        r.estimated_download_bytes == context.estimated_download_bytes,
        r.add_files@.len() == 0,
        r.replace_files@.len() == 0,
        r.delete_files@.len() == 0,
        r.skip_files@.len() == 0,
        texts(r.warnings@) == texts(context.warnings@),
        !r.has_beta_config,
{
    let reason = match context.manual_download_reason {
        Some(m) => Some(text_of(m.as_plan_value())),
        None => None,
    };
    let mode = match context.install_mode {
        Some(m) => Some(text_of(m.as_plan_value())),
        None => None,
    };
    let manual = match &context.manual_download_url {
        Some(u) => Some(u.clone()),
        None => None,
    };
    ZiboUpdatePlan {
        provider: text_of("zibo"),
        item_type: text_of(item_type),
        folder_name: text_of(folder_name),
        local_version: local_version_text(&context.local_state),
        remote_version: Some(context.latest_release.version_string()),
        remote_module: Some(plan_remote_module_url(context)),
        manual_download_url: manual,
        manual_download_reason: reason,
        zibo_install_mode: mode,
        remote_locked: false,
        has_update: context.has_update,
        estimated_download_bytes: context.estimated_download_bytes,
        add_files: Vec::new(),
        replace_files: Vec::new(),
        delete_files: Vec::new(),
        skip_files: Vec::new(),
        warnings: copy_texts(&context.warnings),
        has_beta_config: false,
    }
}

/// What an update run does once its plan is known.
#[derive(Debug)]
pub enum ZiboExecution {
    AlreadyUpToDate,
    Install { planned: PlannedZiboUpdate, preserve_liveries: bool, preserve_config_files: bool },
}

/// The error of a run whose plan asks for a manual download.
pub open spec fn manual_download_error(reason: ZiboManualDownloadReason, url: Seq<char>) -> Seq<
    char,
> {
    match reason {
        ZiboManualDownloadReason::DriveLimit => "Google Drive has reached its 24-hour download limit for this Zibo package. Use the alternative download links: "@
            + url,
        ZiboManualDownloadReason::ReleasePage => "The Zibo Google Drive files may not be updated yet. Please retry later or visit the release page for other download options: "@
            + url,
    }
}

/// The manual download link of a context, the forum page when none is set.
pub open spec fn manual_url_or_fallback(ctx: ZiboPlanContext) -> Seq<char> {
    match ctx.manual_download_url {
        Some(u) => u@,
        None => manual_fallback_url(),
    }
}

/// What a run does with a context: nothing without an update; an error
/// that points to the manual download when the plan asks for one; else the
/// planned install. A clean install keeps liveries and configuration files
/// unless a fresh install was asked for, which follows the options.
pub fn decide_zibo_execution(
    context: &ZiboPlanContext,
    fresh_install: bool,
    preserve_liveries: bool,
    preserve_config_files: bool,
) -> (r: Result<ZiboExecution, String>)
    ensures
        !context.has_update ==> r matches Ok(ZiboExecution::AlreadyUpToDate),
        context.has_update ==> match context.manual_download_reason {
            Some(reason) => r matches Err(e) && e@ == manual_download_error(
                reason,
                manual_url_or_fallback(*context),
            ),
            None => match context.install_mode {
                None => r matches Err(e) && e@ == "Missing Zibo install mode for update execution"@,
                Some(mode) => match context.primary_release {
                    None => r matches Err(e) && e@
                        == "Missing Zibo release plan for update execution"@,
                    Some(p) => r matches Ok(
                        ZiboExecution::Install {
                            planned,
                            preserve_liveries: keep_liveries,
                            preserve_config_files: keep_configs,
                        },
                    ) && planned@ == (mode, p@, opt_release(context.follow_up_patch)) && keep_liveries
                        == (if fresh_install {
                        preserve_liveries
                    } else {
                        true
                    }) && keep_configs == (if fresh_install {
                        preserve_config_files
                    } else {
                        true
                    }),
                },
            },
        },
{
    if !context.has_update {
        return Ok(ZiboExecution::AlreadyUpToDate);
    }
    match context.manual_download_reason {
        Some(reason) => {
            let url = match &context.manual_download_url {
                Some(u) => u.clone(),
                None => zibo_manual_fallback_url(),
            };
            let mut e = match reason {
                ZiboManualDownloadReason::DriveLimit => chars_of(
                    "Google Drive has reached its 24-hour download limit for this Zibo package. Use the alternative download links: ",
                ),
                ZiboManualDownloadReason::ReleasePage => chars_of(
                    "The Zibo Google Drive files may not be updated yet. Please retry later or visit the release page for other download options: ",
                ),
            };
            push_all(&mut e, &chars_of(url.as_str()));
            return Err(string_of(&e));
        },
        None => {},
    }
    let mode = match context.install_mode {
        Some(m) => m,
        None => return Err(text_of("Missing Zibo install mode for update execution")),
    };
    let primary = match &context.primary_release {
        Some(p) => copy_release(p),
        None => return Err(text_of("Missing Zibo release plan for update execution")),
    };
    let planned = PlannedZiboUpdate {
        install_mode: mode,
        primary_release: primary,
        follow_up_patch: copy_opt_release(&context.follow_up_patch),
    };
    Ok(
        ZiboExecution::Install {
            planned,
            preserve_liveries: if fresh_install {
                preserve_liveries
            } else {
                true
            },
            preserve_config_files: if fresh_install {
                preserve_config_files
            } else {
                true
            },
        },
    )
}

/// The progress message shown when an install starts.
pub fn zibo_install_start_message(mode: ZiboInstallMode) -> (r: String)
    ensures
        r@ == (match mode {
            ZiboInstallMode::Patch => "Preparing Zibo patch update"@,
            ZiboInstallMode::MajorClean => "Preparing Zibo clean install update"@,
        }),
{
    match mode {
        ZiboInstallMode::Patch => text_of("Preparing Zibo patch update"),
        ZiboInstallMode::MajorClean => text_of("Preparing Zibo clean install update"),
    }
}

/// The message of a finished install: the new version, then the suffix the
/// install reported, after a space.
pub open spec fn installed_message(version: VersionTriple, suffix: Option<Seq<char>>) -> Seq<char> {
    let base = "Updated Zibo to "@ + version_text(version);
    match suffix {
        Some(x) => base + " "@ + x,
        None => base,
    }
}

/// The result of a run: `Already up to date` when no install ran
/// (`installed` is `None`), else the count of installed files and the
/// message of `installed_message`. Nothing is deleted or skipped and no
/// rollback is used.
pub fn zibo_update_result(
    item_type: &str,
    folder_name: &str,
    context: &ZiboPlanContext,
    installed: Option<(usize, Option<String>)>,
) -> (r: SkunkUpdateResult)
    ensures
        r.provider@ == "zibo"@,
        r.success,
        r.item_type@ == item_type@,
        r.folder_name@ == folder_name@,
        opt_text(r.local_version) == local_version_view(context.local_state),
        opt_text(r.remote_version) == Some(version_text(context.latest_release.version)),
        match installed {
            None => r.message@ == "Already up to date"@ && r.updated_files == 0,
            Some((n, suffix)) => r.message@ == installed_message(
                context.latest_release.version,
                opt_text(suffix),
            ) && r.updated_files == n,
        },
        r.deleted_files == 0,
        r.skipped_files == 0,
        !r.rollback_used,
{
    let (message, updated) = match installed {
        None => (text_of("Already up to date"), 0usize),
        Some((n, suffix)) => {
            let mut m = chars_of("Updated Zibo to ");
            push_all(&mut m, &chars_of(context.latest_release.version_string().as_str()));
            match &suffix {
                Some(x) => {
                    m.push(' ');
                    push_all(&mut m, &chars_of(x.as_str()));
                },
                None => {},
            }
            proof {
                let base = "Updated Zibo to "@ + version_text(context.latest_release.version);
                match suffix {
                    Some(x) => assert(m@ =~= base + " "@ + x@) by {
                        reveal_strlit(" ");
                    },
                    None => assert(m@ =~= base),
                }
            }
            (string_of(&m), n)
        },
    };
    SkunkUpdateResult {
        provider: text_of("zibo"),
        success: true,
        message,
        item_type: text_of(item_type),
        folder_name: text_of(folder_name),
        local_version: local_version_text(&context.local_state),
        remote_version: Some(context.latest_release.version_string()),
        updated_files: updated,
        deleted_files: 0,
        skipped_files: 0,
        rollback_used: false,
    }
}

} // verus!
