//! X-Plane Scenery Gateway: version tokens of X-Plane builds, which
//! Gateway scenery a release ships, search ranking and request retries.

use vstd::prelude::*;
use base64::Engine;
use std::collections::HashSet;
use crate::num::{dec, dec_in_range, dec_vec, digit_value, is_digit};
use crate::text::{
    ascii_lower_seq, ascii_lower_vec, ascii_upper_seq, ascii_upper_vec, chars_less, chars_of,
    contains, contains_exec, copy_chars, eq_chars, is_ws, is_ws_char, join, join_all, lines,
    lines_of, push_all, seq_less, seqs, slice_vec, split_ws, starts_with, starts_with_exec,
    string_of, trim, trim_start_char, trim_vec, ws_tokens,
};

verus! {

broadcast use vstd::std_specs::hash::group_hash_axioms;

/// The request to install a Gateway scenery.
#[derive(Debug, Clone)]
pub struct GatewayInstallRequest {
    pub xplane_path: String,
    pub icao: String,
    pub scenery_id: i64,
    pub auto_sort_scenery: Option<bool>,
    pub ignore_external_conflict: Option<bool>,
}

/// The X-Plane release that an install matches.
#[derive(Debug, Clone)]
pub struct GatewayReleaseContext {
    pub detected_version_raw: Option<String>,
    pub matched_release_version: Option<String>,
    pub matched_release_date: Option<String>,
    pub comparison_available: bool,
}

/// An airport of the Gateway directory.
#[derive(Debug, Clone)]
pub struct GatewayAirportSearchResult {
    pub icao: String,
    pub airport_name: Option<String>,
    pub scenery_count: Option<i64>,
    pub recommended_scenery_id: Option<i64>,
    pub recommended_artist: Option<String>,
    pub recommended_accepted_at: Option<String>,
    pub ahead_of_current_xplane: Option<bool>,
}

/// A scenery submission of an airport.
#[derive(Debug, Clone)]
pub struct GatewayScenerySummary {
    pub scenery_id: i64,
    pub artist: Option<String>,
    pub status: Option<String>,
    pub approved_date: Option<String>,
    pub comment: Option<String>,
    pub recommended: bool,
}

/// An airport with its submissions and how it compares with the release.
#[derive(Debug, Clone)]
pub struct GatewayAirportDetail {
    pub icao: String,
    pub airport_name: Option<String>,
    pub scenery_count: Option<i64>,
    pub recommended_scenery_id: Option<i64>,
    pub recommended_artist: Option<String>,
    pub recommended_accepted_at: Option<String>,
    pub sceneries: Vec<GatewayScenerySummary>,
    pub ahead_of_current_xplane: Option<bool>,
    pub current_xplane_release_version: Option<String>,
    pub current_xplane_release_date: Option<String>,
    pub current_xplane_scenery_id: Option<i64>,
    pub current_xplane_artist: Option<String>,
    pub current_xplane_approved_date: Option<String>,
}

/// A scenery submission in detail.
#[derive(Debug, Clone)]
pub struct GatewaySceneryDetail {
    pub scenery_id: i64,
    pub icao: Option<String>,
    pub airport_name: Option<String>,
    pub status: Option<String>,
    pub artist: Option<String>,
    pub approved_date: Option<String>,
    pub comment: Option<String>,
    pub features: Vec<String>,
}

/// An installed Gateway airport and what is known of updates.
#[derive(Debug, Clone)]
pub struct GatewayInstalledAirport {
    pub id: i64,
    pub airport_icao: String,
    pub airport_name: String,
    pub scenery_id: i64,
    pub folder_name: String,
    pub artist: Option<String>,
    pub approved_date: Option<String>,
    pub installed_at: i64,
    pub update_available: Option<bool>,
    pub latest_scenery_id: Option<i64>,
    pub latest_artist: Option<String>,
    pub latest_approved_date: Option<String>,
    pub ahead_of_current_xplane: Option<bool>,
    pub current_xplane_release_version: Option<String>,
    pub current_xplane_release_date: Option<String>,
    pub current_xplane_scenery_id: Option<i64>,
    pub current_xplane_artist: Option<String>,
    pub current_xplane_approved_date: Option<String>,
}

/// A warning shown before an install.
#[derive(Debug, Clone)]
pub struct GatewayInstallWarning {
    pub kind: String,
    pub message: String,
}

/// The release submission of an airport, when the release has one.
#[derive(Debug, Clone)]
pub struct GatewayCurrentReleaseSceneryData {
    pub scenery_id: Option<i64>,
    pub artist: Option<String>,
    pub approved_date: Option<String>,
}

/// How the Gateway's recommendation compares with what a release ships.
#[derive(Debug, Clone)]
pub struct GatewayReleaseComparison {
    pub ahead_of_current_xplane: bool,
    pub current_xplane_scenery: GatewayCurrentReleaseSceneryData,
}

/// State of reading the version token: the finished numeric segments, the
/// digits of the segment being read, and whether reading stopped.
pub type TokenScan = (Seq<Seq<char>>, Seq<char>, bool);

/// One character of the token: digits extend the segment; a `.` ends a
/// non-empty segment (and stops after the fourth) or stops on an empty one;
/// any other character stops once a segment has digits, else is skipped.
pub open spec fn token_step(st: TokenScan, c: char) -> TokenScan {
    if st.2 {
        st
    } else if is_digit(c) {
        (st.0, st.1.push(c), false)
    } else if c == '.' {
        if st.1.len() == 0 {
            (st.0, st.1, true)
        } else {
            let segs = st.0.push(st.1);
            (segs, Seq::empty(), segs.len() >= 4)
        }
    } else if st.1.len() > 0 {
        (st.0, st.1, true)
    } else {
        st
    }
}

pub open spec fn token_scan(t: Seq<char>) -> TokenScan
    decreases t.len(),
{
    if t.len() == 0 {
        (Seq::empty(), Seq::empty(), false)
    } else {
        token_step(token_scan(t.drop_last()), t.last())
    }
}

/// The numeric segments of a version token.
pub open spec fn token_segments(t: Seq<char>) -> Seq<Seq<char>> {
    let st = token_scan(t);
    if st.1.len() > 0 {
        st.0.push(st.1)
    } else {
        st.0
    }
}

/// The first three segments that read as `u64`, rendered in decimal.
pub open spec fn canonical_segments(segs: Seq<Seq<char>>) -> Seq<Seq<char>>
    decreases segs.len(),
{
    if segs.len() == 0 {
        Seq::empty()
    } else {
        let prev = canonical_segments(segs.drop_last());
        if segs.len() <= 3 {
            match dec_in_range(segs.last(), u64::MAX as nat) {
                Some(v) => prev.push(dec(v)),
                None => prev,
            }
        } else {
            prev
        }
    }
}

/// Pads a list of segments with `0` to three.
pub open spec fn pad_to_three(s: Seq<Seq<char>>) -> Seq<Seq<char>>
    decreases 3 - s.len(),
{
    if s.len() >= 3 {
        s
    } else {
        pad_to_three(s.push(seq!['0']))
    }
}

/// An X-Plane version as `major.minor.patch`: the trimmed text without
/// leading `v`/`V`, its first white-space token, the numeric segments read
/// from it, the first three of them (as `u64`), padded with zeros.
pub open spec fn xplane_version_token(raw: Seq<char>) -> Option<Seq<char>> {
    let t = trim_start_v(trim(raw));
    if t.len() == 0 {
        None
    } else {
        let toks = ws_tokens(t);
        let first = if toks.len() > 0 {
            toks[0]
        } else {
            t
        };
        let segs = token_segments(first);
        if segs.len() == 0 {
            None
        } else {
            let canon = canonical_segments(segs);
            if canon.len() == 0 {
                None
            } else {
                Some(join(pad_to_three(canon), seq!['.']))
            }
        }
    }
}

/// `s` without its leading `v` and `V` characters.
pub open spec fn trim_start_v(s: Seq<char>) -> Seq<char>
    decreases s.len(),
{
    if s.len() > 0 && (s[0] == 'v' || s[0] == 'V') {
        trim_start_v(s.drop_first())
    } else {
        s
    }
}

fn trim_start_v_vec(s: &[char]) -> (r: Vec<char>)
    ensures
        r@ == trim_start_v(s@),
{
    let mut i: usize = 0;
    assert(s@.subrange(0, s@.len() as int) =~= s@);
    while i < s.len() && (s[i] == 'v' || s[i] == 'V')
        invariant
            0 <= i <= s.len(),
            trim_start_v(s@) == trim_start_v(s@.subrange(i as int, s@.len() as int)),
        decreases s.len() - i,
    {
        assert(s@.subrange(i as int, s@.len() as int).drop_first() =~= s@.subrange(
            i + 1,
            s@.len() as int,
        ));
        i = i + 1;
    }
    slice_vec(s, i, s.len())
}

proof fn lemma_canonical_len(segs: Seq<Seq<char>>)
    ensures
        canonical_segments(segs).len() <= 3,
        canonical_segments(segs).len() <= segs.len(),
    decreases segs.len(),
{
    if segs.len() > 0 {
        lemma_canonical_len(segs.drop_last());
    }
}

/// Normalises the version of an X-Plane build for release matching.
pub fn normalize_xplane_version_token(raw: &str) -> (r: Option<String>)
    ensures
        match xplane_version_token(raw@) {
            Some(v) => r matches Some(s) && s@ == v,
            None => r is None,
        },
{
    let t = trim_start_v_vec(&trim_vec(&chars_of(raw)));
    if t.len() == 0 {
        return None;
    }
    let toks = split_ws(&t);
    let first = if toks.len() > 0 {
        assert(seqs(toks@)[0] == toks@[0]@);
        copy_chars(&toks[0])
    } else {
        copy_chars(&t)
    };
    let mut segments: Vec<Vec<char>> = Vec::new();
    let mut current: Vec<char> = Vec::new();
    let mut stopped = false;
    let mut i: usize = 0;
    while i < first.len()
        invariant
            0 <= i <= first.len(),
            (seqs(segments@), current@, stopped) == token_scan(first@.subrange(0, i as int)),
        decreases first.len() - i,
    {
        assert(first@.subrange(0, i + 1).drop_last() =~= first@.subrange(0, i as int));
        let c = first[i];
        if !stopped {
            if '0' <= c && c <= '9' {
                current.push(c);
            } else if c == '.' {
                if current.len() == 0 {
                    stopped = true;
                } else {
                    let ghost before = seqs(segments@);
                    let seg = current;
                    current = Vec::new();
                    segments.push(seg);
                    assert(seqs(segments@) =~= before.push(seg@));
                    if segments.len() >= 4 {
                        stopped = true;
                    }
                }
            } else if current.len() > 0 {
                stopped = true;
            }
        }
        i = i + 1;
    }
    assert(first@.subrange(0, first@.len() as int) =~= first@);
    if current.len() > 0 {
        let ghost before = seqs(segments@);
        segments.push(current);
        assert(seqs(segments@) =~= before.push(token_scan(first@).1));
    }
    if segments.len() == 0 {
        return None;
    }
    let ghost segs = seqs(segments@);
    let mut canon: Vec<Vec<char>> = Vec::new();
    let mut k: usize = 0;
    while k < segments.len()
        invariant
            0 <= k <= segments.len(),
            segs == seqs(segments@),
            seqs(canon@) == canonical_segments(segs.subrange(0, k as int)),
        decreases segments.len() - k,
    {
        assert(segs.subrange(0, k + 1).drop_last() =~= segs.subrange(0, k as int));
        assert(segs.subrange(0, k + 1).last() == segments@[k as int]@);
        if k < 3 {
            match dec_digits_u64(&segments[k]) {
                Some(v) => {
                    let ghost before = seqs(canon@);
                    let d = dec_vec(v);
                    canon.push(d);
                    assert(seqs(canon@) =~= before.push(dec(v as nat)));
                },
                None => {},
            }
        }
        k = k + 1;
    }
    assert(segs.subrange(0, segments@.len() as int) =~= segs);
    if canon.len() == 0 {
        return None;
    }
    proof {
        lemma_canonical_len(segs);
    }
    let ghost c0 = seqs(canon@);
    while canon.len() < 3
        invariant
            canon@.len() <= 3,
            c0.len() <= 3,
            pad_to_three(seqs(canon@)) == pad_to_three(c0),
        decreases 3 - canon.len(),
    {
        let ghost before = seqs(canon@);
        let mut z: Vec<char> = Vec::new();
        z.push('0');
        canon.push(z);
        assert(seqs(canon@) =~= before.push(seq!['0']));
    }
    assert(pad_to_three(seqs(canon@)) == seqs(canon@));
    let mut dot: Vec<char> = Vec::new();
    dot.push('.');
    assert(dot@ =~= seq!['.']);
    Some(string_of(&join_all(&canon, &dot)))
}

/// The value of a run of ASCII digits that fits in `u64`.
fn dec_digits_u64(s: &[char]) -> (r: Option<u64>)
    ensures
        r == (match dec_in_range(s@, u64::MAX as nat) {
            Some(v) => Some(v as u64),
            None => None::<u64>,
        }),
{
    if s.len() > 0 && s[0] == '+' {
        assert(!crate::num::all_digits(s@)) by {
            assert(!is_digit(s@[0]));
        }
        return None;
    }
    let r = crate::num::parse_u64(s);
    proof {
        if s@.len() > 0 && s@[0] == '+' {
        } else {
            assert(crate::num::parse_unsigned(s@, u64::MAX as nat) == dec_in_range(
                s@,
                u64::MAX as nat,
            ));
        }
    }
    r
}

pub open spec fn opt_view(o: Option<String>) -> Option<Seq<char>> {
    match o {
        Some(s) => Some(s@),
        None => None,
    }
}

/// The order of approval dates: a missing date first, then by text.
pub open spec fn date_less(a: Option<Seq<char>>, b: Option<Seq<char>>) -> bool {
    match (a, b) {
        (None, Some(_)) => true,
        (Some(x), Some(y)) => seq_less(x, y),
        _ => false,
    }
}

/// The order of submissions: by approval date, then by id.
pub open spec fn scenery_less(a: (i64, Option<Seq<char>>), b: (i64, Option<Seq<char>>)) -> bool {
    date_less(a.1, b.1) || (a.1 == b.1 && a.0 < b.0)
}

pub open spec fn scenery_keys(v: Seq<GatewayScenerySummary>) -> Seq<(i64, Option<Seq<char>>)> {
    v.map_values(|s: GatewayScenerySummary| (s.scenery_id, opt_view(s.approved_date)))
}

/// The index of the latest submission (by approval date, then id; the last
/// of equal ones) among those the release ships.
pub open spec fn latest_in_release(s: Seq<(i64, Option<Seq<char>>)>, release: Set<i64>) -> Option<int>
    decreases s.len(),
{
    if s.len() == 0 {
        None
    } else {
        let prev = latest_in_release(s.drop_last(), release);
        if release.contains(s.last().0) && match prev {
            Some(p) => !scenery_less(s.last(), s[p]),
            None => true,
        } {
            Some(s.len() - 1)
        } else {
            prev
        }
    }
}

proof fn lemma_latest_in_release(s: Seq<(i64, Option<Seq<char>>)>, release: Set<i64>)
    ensures
        latest_in_release(s, release) matches Some(p) ==> 0 <= p < s.len() && release.contains(
            s[p].0,
        ),
    decreases s.len(),
{
    if s.len() > 0 {
        lemma_latest_in_release(s.drop_last(), release);
    }
}

fn opt_date_less(a: &Option<String>, b: &Option<String>) -> (r: bool)
    ensures
        r == date_less(opt_view(*a), opt_view(*b)),
{
    match (a, b) {
        (None, Some(_)) => true,
        (Some(x), Some(y)) => chars_less(&chars_of(x.as_str()), &chars_of(y.as_str())),
        _ => false,
    }
}

fn opt_string_eq(a: &Option<String>, b: &Option<String>) -> (r: bool)
    ensures
        r == (opt_view(*a) == opt_view(*b)),
{
    match (a, b) {
        (None, None) => true,
        (Some(x), Some(y)) => eq_chars(&chars_of(x.as_str()), &chars_of(y.as_str())),
        _ => false,
    }
}

/// The submission of the airport that the release ships: the latest one
/// (by approval date, then id) among those in the release.
pub fn resolve_current_release_scenery(
    detail: &GatewayAirportDetail,
    release_scenery: &HashSet<i64>,
) -> (r: GatewayCurrentReleaseSceneryData)
    ensures
        match latest_in_release(scenery_keys(detail.sceneries@), release_scenery@) {
            Some(p) => r.scenery_id == Some(detail.sceneries@[p].scenery_id) && r.artist
                == detail.sceneries@[p].artist && r.approved_date
                == detail.sceneries@[p].approved_date,
            None => r.scenery_id is None && r.artist is None && r.approved_date is None,
        },
{
    let ghost keys = scenery_keys(detail.sceneries@);
    let mut best: Option<usize> = None;
    let mut i: usize = 0;
    while i < detail.sceneries.len()
        invariant
            0 <= i <= detail.sceneries.len(),
            keys == scenery_keys(detail.sceneries@),
            match latest_in_release(keys.subrange(0, i as int), release_scenery@) {
                Some(p) => best == Some(p as usize) && 0 <= p < i,
                None => best is None,
            },
        decreases detail.sceneries.len() - i,
    {
        let ghost sub = keys.subrange(0, i + 1);
        assert(sub.drop_last() =~= keys.subrange(0, i as int));
        assert(sub.last() == keys[i as int]);
        let s = &detail.sceneries[i];
        if release_scenery.contains(&s.scenery_id) {
            match best {
                Some(p) => {
                    assert(sub[p as int] == keys[p as int]);
                    let b = &detail.sceneries[p];
                    let less = opt_date_less(&s.approved_date, &b.approved_date) || (
                    opt_string_eq(&s.approved_date, &b.approved_date) && s.scenery_id
                        < b.scenery_id);
                    if !less {
                        best = Some(i);
                    }
                },
                None => {
                    best = Some(i);
                },
            }
        }
        i = i + 1;
    }
    assert(keys.subrange(0, detail.sceneries@.len() as int) =~= keys);
    match best {
        Some(p) => {
            let s = &detail.sceneries[p];
            GatewayCurrentReleaseSceneryData {
                scenery_id: Some(s.scenery_id),
                artist: s.artist.clone(),
                approved_date: s.approved_date.clone(),
            }
        },
        None => GatewayCurrentReleaseSceneryData {
            scenery_id: None,
            artist: None,
            approved_date: None,
        },
    }
}

/// Whether the Gateway recommends something the release does not ship:
/// with a recommendation, when the release has no submission of the
/// airport or another one than the recommended.
pub open spec fn ahead_of_release(recommended: Option<i64>, current: Option<i64>) -> bool {
    match recommended {
        Some(r) => match current {
            Some(c) => c != r,
            None => true,
        },
        None => false,
    }
}

/// Compares an airport with what the release ships; nothing without the
/// release's list of submissions.
pub fn compute_release_comparison(
    detail: &GatewayAirportDetail,
    release_scenery: Option<&HashSet<i64>>,
) -> (r: Option<GatewayReleaseComparison>)
    ensures
        match release_scenery {
            None => r is None,
            Some(set) => r matches Some(c) && ({
                let cur = latest_in_release(scenery_keys(detail.sceneries@), set@);
                &&& c.current_xplane_scenery.scenery_id == (match cur {
                    Some(p) => Some(detail.sceneries@[p].scenery_id),
                    None => None,
                })
                &&& cur matches Some(p) ==> c.current_xplane_scenery.artist
                    == detail.sceneries@[p].artist && c.current_xplane_scenery.approved_date
                    == detail.sceneries@[p].approved_date
                &&& c.ahead_of_current_xplane == ahead_of_release(
                    detail.recommended_scenery_id,
                    c.current_xplane_scenery.scenery_id,
                )
            }),
        },
{
    let set = match release_scenery {
        Some(s) => s,
        None => return None,
    };
    let current = resolve_current_release_scenery(detail, set);
    let ahead = match detail.recommended_scenery_id {
        Some(recommended) => match current.scenery_id {
            Some(c) => c != recommended,
            None => true,
        },
        None => false,
    };
    Some(GatewayReleaseComparison { ahead_of_current_xplane: ahead, current_xplane_scenery: current })
}

/// Marks a search result as ahead of the release when the release's
/// submissions are known: with a recommendation the release lacks.
pub fn enrich_search_result_for_release(
    airport: GatewayAirportSearchResult,
    release_scenery: Option<&HashSet<i64>>,
) -> (r: GatewayAirportSearchResult)
    ensures
        r.icao == airport.icao,
        r.airport_name == airport.airport_name,
        r.scenery_count == airport.scenery_count,
        r.recommended_scenery_id == airport.recommended_scenery_id,
        r.recommended_artist == airport.recommended_artist,
        r.recommended_accepted_at == airport.recommended_accepted_at,
        r.ahead_of_current_xplane == (match release_scenery {
            Some(set) => Some(
                match airport.recommended_scenery_id {
                    Some(rec) => !set@.contains(rec),
                    None => false,
                },
            ),
            None => None,
        }),
{
    let mut airport = airport;
    airport.ahead_of_current_xplane = match release_scenery {
        Some(set) => Some(
            match airport.recommended_scenery_id {
                Some(rec) => !set.contains(&rec),
                None => false,
            },
        ),
        None => None,
    };
    airport
}

/// A version number `major.minor.patch` of an X-Plane release.
#[derive(Debug, Clone, Copy, PartialEq, Eq, Structural)]
pub struct ReleaseVersion {
    pub major: u64,
    pub minor: u64,
    pub patch: u64,
}

/// A release in the Gateway's release list: its name, date and version.
#[derive(Debug, Clone)]
pub struct GatewayReleaseInfo {
    pub version: String,
    pub date: String,
    pub parsed_version: ReleaseVersion,
}

/// Puts the release and the comparison into an airport detail.
pub fn enrich_airport_detail_for_release(
    detail: GatewayAirportDetail,
    release_info: Option<&GatewayReleaseInfo>,
    release_scenery: Option<&HashSet<i64>>,
) -> (r: GatewayAirportDetail)
    ensures
        r.icao == detail.icao,
        r.sceneries@ == detail.sceneries@,
        r.recommended_scenery_id == detail.recommended_scenery_id,
        match release_info {
            Some(info) => r.current_xplane_release_version == Some(info.version)
                && r.current_xplane_release_date == Some(info.date),
            None => r.current_xplane_release_version == detail.current_xplane_release_version
                && r.current_xplane_release_date == detail.current_xplane_release_date,
        },
        match release_scenery {
            Some(set) => {
                let cur = latest_in_release(scenery_keys(detail.sceneries@), set@);
                &&& r.current_xplane_scenery_id == (match cur {
                    Some(p) => Some(detail.sceneries@[p].scenery_id),
                    None => None,
                })
                &&& r.ahead_of_current_xplane == Some(
                    ahead_of_release(detail.recommended_scenery_id, r.current_xplane_scenery_id),
                )
            },
            None => r.ahead_of_current_xplane == detail.ahead_of_current_xplane
                && r.current_xplane_scenery_id == detail.current_xplane_scenery_id,
        },
{
    let mut detail = detail;
    match release_info {
        Some(info) => {
            detail.current_xplane_release_version = Some(info.version.clone());
            detail.current_xplane_release_date = Some(info.date.clone());
        },
        None => {},
    }
    match compute_release_comparison(&detail, release_scenery) {
        Some(c) => {
            detail.ahead_of_current_xplane = Some(c.ahead_of_current_xplane);
            detail.current_xplane_scenery_id = c.current_xplane_scenery.scenery_id;
            detail.current_xplane_artist = c.current_xplane_scenery.artist;
            detail.current_xplane_approved_date = c.current_xplane_scenery.approved_date;
        },
        None => {},
    }
    detail
}

/// Puts the release and the comparison into an installed airport.
pub fn apply_release_comparison_to_installed(
    installed: &mut GatewayInstalledAirport,
    release_info: Option<&GatewayReleaseInfo>,
    comparison: Option<&GatewayReleaseComparison>,
)
    ensures
        final(installed).id == old(installed).id,
        final(installed).scenery_id == old(installed).scenery_id,
        final(installed).update_available == old(installed).update_available,
        match release_info {
            Some(info) => final(installed).current_xplane_release_version == Some(info.version)
                && final(installed).current_xplane_release_date == Some(info.date),
            None => final(installed).current_xplane_release_version == old(
                installed,
            ).current_xplane_release_version && final(installed).current_xplane_release_date
                == old(installed).current_xplane_release_date,
        },
        match comparison {
            Some(c) => final(installed).ahead_of_current_xplane == Some(c.ahead_of_current_xplane)
                && final(installed).current_xplane_scenery_id == c.current_xplane_scenery.scenery_id
                && final(installed).current_xplane_artist == c.current_xplane_scenery.artist
                && final(installed).current_xplane_approved_date
                == c.current_xplane_scenery.approved_date,
            None => final(installed).ahead_of_current_xplane == old(
                installed,
            ).ahead_of_current_xplane && final(installed).current_xplane_scenery_id == old(
                installed,
            ).current_xplane_scenery_id,
        },
{
    match release_info {
        Some(info) => {
            installed.current_xplane_release_version = Some(info.version.clone());
            installed.current_xplane_release_date = Some(info.date.clone());
        },
        None => {},
    }
    match comparison {
        Some(c) => {
            installed.ahead_of_current_xplane = Some(c.ahead_of_current_xplane);
            installed.current_xplane_scenery_id = c.current_xplane_scenery.scenery_id;
            installed.current_xplane_artist = c.current_xplane_scenery.artist.clone();
            installed.current_xplane_approved_date = c.current_xplane_scenery.approved_date.clone();
        },
        None => {},
    }
}

/// How long to wait before retry `attempt` (milliseconds).
pub fn gateway_retry_delay(attempt: usize) -> (r: u64)
    ensures
        r == (if attempt == 0 {
            350u64
        } else if attempt == 1 {
            900u64
        } else {
            1500u64
        }),
{
    if attempt == 0 {
        350
    } else if attempt == 1 {
        900
    } else {
        1500
    }
}

/// Statuses worth retrying: too many requests and the gateway errors.
pub fn gateway_status_is_retryable(status: u16) -> (r: bool)
    ensures
        r == (status == 429 || status == 502 || status == 503 || status == 504),
{
    status == 429 || status == 502 || status == 503 || status == 504
}

/// The message for a failed status: busy for 429, else unavailable.
pub fn gateway_status_error_message(status: u16) -> (r: String)
    ensures
        r@ == (if status == 429 {
            "Gateway service is busy right now. Please wait a moment and try again."@
        } else {
            "Gateway service is temporarily unavailable. Please try again later."@
        }),
{
    if status == 429 {
        string_of(&chars_of("Gateway service is busy right now. Please wait a moment and try again."))
    } else {
        string_of(&chars_of("Gateway service is temporarily unavailable. Please try again later."))
    }
}

/// An airport code: trimmed and upper-cased (ASCII); an error when empty.
pub fn normalize_icao(icao: &str) -> (r: Result<String, String>)
    ensures
        match r {
            Ok(s) => s@ == ascii_upper_seq(trim(icao@)) && s@.len() > 0,
            Err(e) => ascii_upper_seq(trim(icao@)).len() == 0 && e@ == "ICAO is required"@,
        },
{
    let n = ascii_upper_vec(&trim_vec(&chars_of(icao)));
    if n.len() == 0 {
        return Err(string_of(&chars_of("ICAO is required")));
    }
    Ok(string_of(&n))
}

/// Every white-space token of the query occurs in the code or the name.
pub open spec fn all_tokens_found(tokens: Seq<Seq<char>>, icao: Seq<char>, name: Seq<char>) -> bool {
    forall|i: int|
        0 <= i < tokens.len() ==> (#[trigger] tokens[i]).len() > 0 && (contains(icao, tokens[i])
            || contains(name, tokens[i]))
}

/// How well an airport matches a lower-case query: exact code, code
/// prefix, name prefix, name substring, every token somewhere; no match
/// otherwise. Code and name are compared in ASCII lower case.
pub open spec fn match_score(icao: Seq<char>, name: Option<Seq<char>>, query: Seq<char>) -> Option<usize> {
    let i = ascii_lower_seq(icao);
    let n = ascii_lower_seq(
        match name {
            Some(x) => x,
            None => Seq::empty(),
        },
    );
    if i == query {
        Some(0)
    } else if starts_with(i, query) {
        Some(1)
    } else if starts_with(n, query) {
        Some(2)
    } else if contains(n, query) {
        Some(3)
    } else if all_tokens_found(ws_tokens(query), i, n) {
        Some(4)
    } else {
        None
    }
}

#[verifier::loop_isolation(false)]
pub fn airport_match_score(airport: &GatewayAirportSearchResult, query: &str) -> (r: Option<usize>)
    ensures
        r == match_score(airport.icao@, opt_view(airport.airport_name), query@),
{
    let icao = ascii_lower_vec(&chars_of(airport.icao.as_str()));
    let raw_name = match &airport.airport_name {
        Some(n) => chars_of(n.as_str()),
        None => Vec::new(),
    };
    let name = ascii_lower_vec(&raw_name);
    let q = chars_of(query);
    if eq_chars(&icao, &q) {
        return Some(0);
    }
    if starts_with_exec(&icao, &q) {
        return Some(1);
    }
    if starts_with_exec(&name, &q) {
        return Some(2);
    }
    if contains_exec(&name, &q) {
        return Some(3);
    }
    let toks = split_ws(&q);
    let ghost ts = seqs(toks@);
    let mut k: usize = 0;
    while k < toks.len()
        invariant
            0 <= k <= toks.len(),
            ts == seqs(toks@),
            all_tokens_found(ts.subrange(0, k as int), icao@, name@),
        decreases toks.len() - k,
    {
        assert(ts[k as int] == toks@[k as int]@);
        let t = &toks[k];
        if !(t.len() > 0 && (contains_exec(&icao, t) || contains_exec(&name, t))) {
            assert(!all_tokens_found(ts, icao@, name@)) by {
                assert(ts[k as int] == t@);
            }
            return None;
        }
        assert(ts.subrange(0, k + 1)[k as int] == ts[k as int]);
        assert forall|j: int| 0 <= j < k + 1 implies (#[trigger] ts.subrange(0, k + 1)[j]).len() > 0
            && (contains(icao@, ts.subrange(0, k + 1)[j]) || contains(
            name@,
            ts.subrange(0, k + 1)[j],
        )) by {
            if j < k {
                assert(ts.subrange(0, k + 1)[j] == ts.subrange(0, k as int)[j]);
            }
        }
        k = k + 1;
    }
    assert(ts.subrange(0, toks@.len() as int) =~= ts);
    Some(4)
}

/// A Gateway id: only positive ids count.
pub fn normalize_gateway_id(value: Option<i64>) -> (r: Option<i64>)
    ensures
        r == (match value {
            Some(v) => if v > 0 {
                Some(v)
            } else {
                None
            },
            None => None,
        }),
{
    match value {
        Some(v) => if v > 0 {
            Some(v)
        } else {
            None
        },
        None => None,
    }
}

/// An airport as the directory lists it.
#[derive(Debug, Clone)]
pub struct GatewayAirportSummaryData {
    pub icao: String,
    pub airport_name: Option<String>,
    pub scenery_count: Option<i64>,
    pub recommended_scenery_id: Option<i64>,
    pub recommended_artist: Option<String>,
    pub recommended_accepted_at: Option<String>,
}

/// A directory entry as a search result, not yet compared with a release.
pub fn summary_to_search_result(summary: GatewayAirportSummaryData) -> (r: GatewayAirportSearchResult)
    ensures
        r.icao == summary.icao,
        r.airport_name == summary.airport_name,
        r.scenery_count == summary.scenery_count,
        r.recommended_scenery_id == summary.recommended_scenery_id,
        r.recommended_artist == summary.recommended_artist,
        r.recommended_accepted_at == summary.recommended_accepted_at,
        r.ahead_of_current_xplane is None,
{
    GatewayAirportSearchResult {
        icao: summary.icao,
        airport_name: summary.airport_name,
        scenery_count: summary.scenery_count,
        recommended_scenery_id: summary.recommended_scenery_id,
        recommended_artist: summary.recommended_artist,
        recommended_accepted_at: summary.recommended_accepted_at,
        ahead_of_current_xplane: None,
    }
}

/// A scenery submission with its archive.
#[derive(Debug, Clone)]
pub struct GatewaySceneryInstallPayload {
    pub scenery_id: i64,
    pub icao: Option<String>,
    pub airport_name: Option<String>,
    pub status: Option<String>,
    pub artist: Option<String>,
    pub approved_date: Option<String>,
    pub comment: Option<String>,
    pub features: Vec<String>,
    pub master_zip_blob: Option<String>,
}

/// A submission without its archive.
pub fn sanitize_scenery_detail(detail: GatewaySceneryInstallPayload) -> (r: GatewaySceneryDetail)
    ensures
        r.scenery_id == detail.scenery_id,
        r.icao == detail.icao,
        r.airport_name == detail.airport_name,
        r.status == detail.status,
        r.artist == detail.artist,
        r.approved_date == detail.approved_date,
        r.comment == detail.comment,
        r.features@ == detail.features@,
{
    GatewaySceneryDetail {
        scenery_id: detail.scenery_id,
        icao: detail.icao,
        airport_name: detail.airport_name,
        status: detail.status,
        artist: detail.artist,
        approved_date: detail.approved_date,
        comment: detail.comment,
        features: detail.features,
    }
}

/// What the standard base64 engine of the `base64` crate gives for the
/// UTF-8 bytes of a text: the decoded bytes, or the text of its error.
pub uninterp spec fn base64_standard_decoded(s: Seq<char>) -> Result<Seq<u8>, Seq<char>>;

/// Decodes with `base64::engine::general_purpose::STANDARD.decode`; the
/// result, or the error's text, is what the crate computes from `s`.
#[verifier::external_body]
fn base64_decode_standard(s: &str) -> (r: Result<Vec<u8>, String>)
    ensures
        match base64_standard_decoded(s@) {
            Ok(b) => r matches Ok(v) && v@ == b,
            Err(e) => r matches Err(m) && m@ == e,
        },
{
    base64::engine::general_purpose::STANDARD.decode(s.as_bytes()).map_err(|e| e.to_string())
}

/// The characters of a text that are not white space.
pub open spec fn without_ws(s: Seq<char>) -> Seq<char>
    decreases s.len(),
{
    if s.len() == 0 {
        s
    } else if is_ws(s.last()) {
        without_ws(s.drop_last())
    } else {
        without_ws(s.drop_last()).push(s.last())
    }
}

/// The scenery archive of a submission: its base64 text without white
/// space, decoded; an error when there is none or it does not decode.
pub fn decode_master_zip_blob(detail: &GatewaySceneryInstallPayload) -> (r: Result<Vec<u8>, String>)
    ensures
        match detail.master_zip_blob {
            None => r matches Err(e) && e@ == "Gateway scenery is missing masterZipBlob"@,
            Some(blob) => match base64_standard_decoded(without_ws(blob@)) {
                Ok(b) => r matches Ok(v) && v@ == b,
                Err(m) => r matches Err(e) && e@ == "Failed to decode Gateway scenery archive: "@
                    + m,
            },
        },
{
    let blob = match &detail.master_zip_blob {
        Some(b) => chars_of(b.as_str()),
        None => return Err(string_of(&chars_of("Gateway scenery is missing masterZipBlob"))),
    };
    let mut compact: Vec<char> = Vec::new();
    let mut i: usize = 0;
    while i < blob.len()
        invariant
            0 <= i <= blob.len(),
            compact@ == without_ws(blob@.subrange(0, i as int)),
        decreases blob.len() - i,
    {
        assert(blob@.subrange(0, i + 1).drop_last() =~= blob@.subrange(0, i as int));
        if !is_ws_char(blob[i]) {
            compact.push(blob[i]);
        }
        i = i + 1;
    }
    assert(blob@.subrange(0, blob@.len() as int) =~= blob@);
    let text = string_of(&compact);
    match base64_decode_standard(text.as_str()) {
        Ok(bytes) => Ok(bytes),
        Err(m) => {
            let mut msg = chars_of("Failed to decode Gateway scenery archive: ");
            push_all(&mut msg, &chars_of(m.as_str()));
            Err(string_of(&msg))
        },
    }
}

/// What `semver::Version::parse` gives for a text: major, minor and patch
/// of the version, when it parses.
pub uninterp spec fn semver_core(s: Seq<char>) -> Option<(u64, u64, u64)>;

/// The text `major.minor.patch` in decimal.
pub open spec fn version_text3(a: u64, b: u64, c: u64) -> Seq<char> {
    dec(a as nat) + seq!['.'] + dec(b as nat) + seq!['.'] + dec(c as nat)
}

/// Parses with `semver::Version::parse` and keeps major, minor and patch.
/// A plain `a.b.c` text of decimal numbers parses to those numbers, as
/// the crate's grammar for versions without pre-release or build says.
#[verifier::external_body]
fn semver_parse(s: &str) -> (r: Option<ReleaseVersion>)
    ensures
        match semver_core(s@) {
            Some(t) => r == Some(ReleaseVersion { major: t.0, minor: t.1, patch: t.2 }),
            None => r is None,
        },
        forall|a: u64, b: u64, c: u64|
            s@ == version_text3(a, b, c) ==> r == Some(ReleaseVersion { major: a, minor: b, patch: c }),
{
    semver::Version::parse(s).ok().map(|v| ReleaseVersion { major: v.major, minor: v.minor, patch: v.patch })
}

/// The version of an X-Plane build as compared with releases.
pub fn parse_xplane_version_for_compare(raw: &str) -> (r: Option<ReleaseVersion>)
    ensures
        match xplane_version_token(raw@) {
            None => r is None,
            Some(t) => match semver_core(t) {
                Some(v) => r == Some(ReleaseVersion { major: v.0, minor: v.1, patch: v.2 }),
                None => r is None,
            },
        },
{
    match normalize_xplane_version_token(raw) {
        Some(t) => semver_parse(t.as_str()),
        None => None,
    }
}

/// `a <= b` for release versions.
pub open spec fn release_version_le(a: ReleaseVersion, b: ReleaseVersion) -> bool {
    ||| a.major < b.major
    ||| a.major == b.major && a.minor < b.minor
    ||| a.major == b.major && a.minor == b.minor && a.patch <= b.patch
}

fn release_version_le_exec(a: ReleaseVersion, b: ReleaseVersion) -> (r: bool)
    ensures
        r == release_version_le(a, b),
{
    a.major < b.major || (a.major == b.major && a.minor < b.minor) || (a.major == b.major
        && a.minor == b.minor && a.patch <= b.patch)
}

/// The index of the newest release not newer than `detected` (the last of
/// equal ones).
pub open spec fn matching_release_index(versions: Seq<ReleaseVersion>, detected: ReleaseVersion) -> Option<int>
    decreases versions.len(),
{
    if versions.len() == 0 {
        None
    } else {
        let prev = matching_release_index(versions.drop_last(), detected);
        let v = versions.last();
        if release_version_le(v, detected) && match prev {
            Some(p) => release_version_le(versions[p], v),
            None => true,
        } {
            Some(versions.len() - 1)
        } else {
            prev
        }
    }
}

pub open spec fn release_versions(v: Seq<GatewayReleaseInfo>) -> Seq<ReleaseVersion> {
    v.map_values(|r: GatewayReleaseInfo| r.parsed_version)
}

/// The release an X-Plane build belongs to: the newest one not newer than
/// the build.
pub fn find_matching_release(detected: ReleaseVersion, releases: &[GatewayReleaseInfo]) -> (r: Option<usize>)
    ensures
        match matching_release_index(release_versions(releases@), detected) {
            Some(p) => r == Some(p as usize) && 0 <= p < releases@.len(),
            None => r is None,
        },
{
    let ghost vs = release_versions(releases@);
    let mut best: Option<usize> = None;
    let mut i: usize = 0;
    while i < releases.len()
        invariant
            0 <= i <= releases.len(),
            vs == release_versions(releases@),
            match matching_release_index(vs.subrange(0, i as int), detected) {
                Some(p) => best == Some(p as usize) && 0 <= p < i,
                None => best is None,
            },
        decreases releases.len() - i,
    {
        let ghost sub = vs.subrange(0, i + 1);
        assert(sub.drop_last() =~= vs.subrange(0, i as int));
        assert(sub.last() == releases@[i as int].parsed_version);
        let v = releases[i].parsed_version;
        if release_version_le_exec(v, detected) {
            match best {
                Some(p) => {
                    assert(sub[p as int] == releases@[p as int].parsed_version);
                    if release_version_le_exec(releases[p].parsed_version, v) {
                        best = Some(i);
                    }
                },
                None => {
                    best = Some(i);
                },
            }
        }
        i = i + 1;
    }
    assert(vs.subrange(0, releases@.len() as int) =~= vs);
    best
}

/// The release context of an install from the version text found in it
/// and the release list (when it could be fetched): the matching release
/// when the version parses and some release is not newer.
pub fn release_context_for(
    detected_version_raw: Option<String>,
    releases: Option<&[GatewayReleaseInfo]>,
) -> (r: GatewayReleaseContext)
    ensures
        r.detected_version_raw == detected_version_raw,
        match (detected_version_raw, releases) {
            (Some(raw), Some(list)) => match xplane_version_token(raw@) {
                Some(t) => match semver_core(t) {
                    Some(v) => match matching_release_index(
                        release_versions(list@),
                        ReleaseVersion { major: v.0, minor: v.1, patch: v.2 },
                    ) {
                        Some(p) => r.comparison_available && r.matched_release_version == Some(
                            list@[p].version,
                        ) && r.matched_release_date == Some(list@[p].date),
                        None => !r.comparison_available && r.matched_release_version is None
                            && r.matched_release_date is None,
                    },
                    None => !r.comparison_available && r.matched_release_version is None,
                },
                None => !r.comparison_available && r.matched_release_version is None,
            },
            _ => !r.comparison_available && r.matched_release_version is None
                && r.matched_release_date is None,
        },
{
    let none = GatewayReleaseContext {
        detected_version_raw: None,
        matched_release_version: None,
        matched_release_date: None,
        comparison_available: false,
    };
    let raw = match &detected_version_raw {
        Some(raw) => raw,
        None => return none,
    };
    let unmatched = GatewayReleaseContext {
        detected_version_raw: detected_version_raw.clone(),
        matched_release_version: None,
        matched_release_date: None,
        comparison_available: false,
    };
    let parsed = match parse_xplane_version_for_compare(raw.as_str()) {
        Some(v) => v,
        None => return unmatched,
    };
    let list = match releases {
        Some(l) => l,
        None => return unmatched,
    };
    match find_matching_release(parsed, list) {
        Some(p) => GatewayReleaseContext {
            detected_version_raw: detected_version_raw.clone(),
            matched_release_version: Some(list[p].version.clone()),
            matched_release_date: Some(list[p].date.clone()),
            comparison_available: true,
        },
        None => unmatched,
    }
}

/// The label of a Gateway feature flag, for the flags that have one.
pub open spec fn feature_label(feature_id: i64) -> Option<Seq<char>> {
    if feature_id == 1 {
        Some("Has ATC Flow"@)
    } else if feature_id == 2 {
        Some("Has Taxi Route"@)
    } else if feature_id == 5 {
        Some("Has Log.txt Issue"@)
    } else if feature_id == 6 {
        Some("LR Internal Use"@)
    } else if feature_id == 8 {
        Some("Has Ground Routes"@)
    } else if feature_id == 11 {
        Some("Runway Numbering/Length Fix"@)
    } else if feature_id == 18 {
        Some("Runway Numbering Fix"@)
    } else if feature_id == 20 {
        Some("Floating Runway"@)
    } else if feature_id == 29 {
        Some("Ground Routes Certified"@)
    } else if feature_id == 35 {
        Some("Misused Draped Sign Polygons"@)
    } else if feature_id == 38 {
        Some("Runway in Water"@)
    } else if feature_id == 40 {
        Some("Runway Unusable (XP11)"@)
    } else if feature_id == 42 {
        Some("Low Res Terrain Polygons (XP11)"@)
    } else if feature_id == 43 {
        Some("Fix Fragmented Road Network XP11"@)
    } else if feature_id == 47 {
        Some("Overlap - Wrong location"@)
    } else if feature_id == 51 {
        Some("Boat Injection"@)
    } else if feature_id == 52 {
        Some("Tunnel Injection"@)
    } else if feature_id == 55 {
        Some("Parking Lot Injection"@)
    } else if feature_id == 57 {
        Some("Embankment Injection"@)
    } else if feature_id == 58 {
        Some("Pier Injection"@)
    } else if feature_id == 59 {
        Some("Runway is Stepped (XP11)"@)
    } else if feature_id == 62 {
        Some("Custom Runway Markings"@)
    } else if feature_id == 64 {
        Some("Runway Misaligned"@)
    } else if feature_id == 65 {
        Some("Facade Injection"@)
    } else if feature_id == 67 {
        Some("Ground Markings Injection"@)
    } else if feature_id == 70 {
        Some("Jetway Kit Injection"@)
    } else if feature_id == 71 {
        Some("Challenged by Artist"@)
    } else if feature_id == 75 {
        Some("Structure(s) do not match imagery"@)
    } else if feature_id == 78 {
        Some("Has orphaned taxiway"@)
    } else if feature_id == 79 {
        Some("Misused Terrain Polygons"@)
    } else if feature_id == 80 {
        Some("Road network duplication"@)
    } else if feature_id == 83 {
        Some("XP12 pre-opening"@)
    } else if feature_id == 84 {
        Some("Better than a newer submission."@)
    } else if feature_id == 86 {
        Some("Has Road Network"@)
    } else if feature_id == 87 {
        Some("Temporary Terrain Polygon(s)"@)
    } else if feature_id == 88 {
        Some("Runway Unusable (XP12)"@)
    } else if feature_id == 89 {
        Some("Runway is Stepped (XP12)"@)
    } else if feature_id == 90 {
        Some("Roads made with polygons"@)
    } else if feature_id == 92 {
        Some("Review in Sim"@)
    } else if feature_id == 93 {
        Some("Fix Fragmented Road Network XP12"@)
    } else if feature_id == 94 {
        Some("Oversized Terrain Polygon(s)"@)
    } else if feature_id == 95 {
        Some("Contains Flatten Polygon"@)
    } else {
        None
    }
}

/// The label of a Gateway feature flag.
pub fn gateway_feature_name(feature_id: i64) -> (r: Option<String>)
    ensures
        r matches Some(s) ==> feature_label(feature_id) == Some(s@),
        r is None ==> feature_label(feature_id) is None,
{
    let name: &str = if feature_id == 1 {
        "Has ATC Flow"
    } else if feature_id == 2 {
        "Has Taxi Route"
    } else if feature_id == 5 {
        "Has Log.txt Issue"
    } else if feature_id == 6 {
        "LR Internal Use"
    } else if feature_id == 8 {
        "Has Ground Routes"
    } else if feature_id == 11 {
        "Runway Numbering/Length Fix"
    } else if feature_id == 18 {
        "Runway Numbering Fix"
    } else if feature_id == 20 {
        "Floating Runway"
    } else if feature_id == 29 {
        "Ground Routes Certified"
    } else if feature_id == 35 {
        "Misused Draped Sign Polygons"
    } else if feature_id == 38 {
        "Runway in Water"
    } else if feature_id == 40 {
        "Runway Unusable (XP11)"
    } else if feature_id == 42 {
        "Low Res Terrain Polygons (XP11)"
    } else if feature_id == 43 {
        "Fix Fragmented Road Network XP11"
    } else if feature_id == 47 {
        "Overlap - Wrong location"
    } else if feature_id == 51 {
        "Boat Injection"
    } else if feature_id == 52 {
        "Tunnel Injection"
    } else if feature_id == 55 {
        "Parking Lot Injection"
    } else if feature_id == 57 {
        "Embankment Injection"
    } else if feature_id == 58 {
        "Pier Injection"
    } else if feature_id == 59 {
        "Runway is Stepped (XP11)"
    } else if feature_id == 62 {
        "Custom Runway Markings"
    } else if feature_id == 64 {
        "Runway Misaligned"
    } else if feature_id == 65 {
        "Facade Injection"
    } else if feature_id == 67 {
        "Ground Markings Injection"
    } else if feature_id == 70 {
        "Jetway Kit Injection"
    } else if feature_id == 71 {
        "Challenged by Artist"
    } else if feature_id == 75 {
        "Structure(s) do not match imagery"
    } else if feature_id == 78 {
        "Has orphaned taxiway"
    } else if feature_id == 79 {
        "Misused Terrain Polygons"
    } else if feature_id == 80 {
        "Road network duplication"
    } else if feature_id == 83 {
        "XP12 pre-opening"
    } else if feature_id == 84 {
        "Better than a newer submission."
    } else if feature_id == 86 {
        "Has Road Network"
    } else if feature_id == 87 {
        "Temporary Terrain Polygon(s)"
    } else if feature_id == 88 {
        "Runway Unusable (XP12)"
    } else if feature_id == 89 {
        "Runway is Stepped (XP12)"
    } else if feature_id == 90 {
        "Roads made with polygons"
    } else if feature_id == 92 {
        "Review in Sim"
    } else if feature_id == 93 {
        "Fix Fragmented Road Network XP12"
    } else if feature_id == 94 {
        "Oversized Terrain Polygon(s)"
    } else if feature_id == 95 {
        "Contains Flatten Polygon"
    } else {
        return None;
    };
    Some(string_of(&chars_of(name)))
}

/// The version named in the first line of an X-Plane log: the first token
/// after `Log.txt for X-Plane `, else after `Log.txt for `; nothing when
/// that token is empty.
pub open spec fn log_version_after(line: Seq<char>, marker: Seq<char>) -> Option<Seq<char>> {
    match crate::text::find(line, marker) {
        Some(pos) => {
            let toks = ws_tokens(line.subrange(pos + marker.len(), line.len() as int));
            let v = if toks.len() > 0 {
                trim(toks[0])
            } else {
                Seq::empty()
            };
            if v.len() > 0 {
                Some(v)
            } else {
                None
            }
        },
        None => None,
    }
}

pub open spec fn log_version(content: Seq<char>) -> Option<Seq<char>> {
    if lines(content).len() == 0 {
        None
    } else {
        let first = trim(lines(content)[0]);
        match log_version_after(first, "Log.txt for X-Plane "@) {
            Some(v) => Some(v),
            None => log_version_after(first, "Log.txt for "@),
        }
    }
}

fn version_after_marker(line: &[char], marker: &str) -> (r: Option<Vec<char>>)
    ensures
        match log_version_after(line@, marker@) {
            Some(v) => r matches Some(x) && x@ == v,
            None => r is None,
        },
{
    let m = chars_of(marker);
    proof {
        crate::text::lemma_find_after(line@, m@, 0);
    }
    let pos = match crate::text::find_exec(line, &m) {
        Some(p) => p,
        None => return None,
    };
    assert(crate::text::occurs_at(line@, m@, pos as int));
    let mlen = m.len();
    let llen = line.len();
    assert(mlen == m@.len() && llen == line@.len());
    let rest = slice_vec(line, pos + mlen, llen);
    let toks = split_ws(&rest);
    let v = if toks.len() > 0 {
        assert(seqs(toks@)[0] == toks@[0]@);
        trim_vec(&toks[0])
    } else {
        Vec::new()
    };
    if v.len() > 0 {
        Some(v)
    } else {
        None
    }
}

/// Reads the X-Plane version from the text of `Log.txt`.
pub fn xplane_version_from_log_text(content: &str) -> (r: Option<String>)
    ensures
        match log_version(content@) {
            Some(v) => r matches Some(s) && s@ == v,
            None => r is None,
        },
{
    let ls = lines_of(&chars_of(content));
    if ls.len() == 0 {
        return None;
    }
    assert(seqs(ls@)[0] == ls@[0]@);
    let first = trim_vec(&ls[0]);
    match version_after_marker(&first, "Log.txt for X-Plane ") {
        Some(v) => Some(string_of(&v)),
        None => match version_after_marker(&first, "Log.txt for ") {
            Some(v) => Some(string_of(&v)),
            None => None,
        },
    }
}

} // verus!
