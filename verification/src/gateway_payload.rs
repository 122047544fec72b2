//! Reading the Gateway's JSON replies: airports, their submissions, a
//! submission's details, the airport directory and the release lists.
//! Each field is looked up under several keys, in a fixed order.

use vstd::prelude::*;
use std::collections::HashSet;
use crate::gateway::{
    feature_label, gateway_feature_name, normalize_gateway_id, GatewayAirportDetail,
    GatewayAirportSearchResult, GatewayAirportSummaryData, GatewayReleaseInfo,
    GatewaySceneryInstallPayload, GatewayScenerySummary, ReleaseVersion,
    parse_xplane_version_for_compare, release_version_le, semver_core, xplane_version_token,
};
use crate::json::{
    member, pick_arr, pick_array, pick_i64, pick_int, pick_obj, pick_object, pick_string,
    pick_text, str_views, JsonMember, JsonValue,
};
use crate::addon::{dec_i64, dec_int, trimmed_nonblank};
use crate::json::{text_of, text_value};
use crate::num::{all_digits, is_digit, parse_i64, parse_i64_spec};
use crate::text::{
    ascii_upper_seq, ascii_upper_vec, chars_less, chars_of, seq_less, dedup_keep_first, push_all, seqs, split_char,
    split_pieces, string_of, trim, trim_vec,
};
use crate::xupdater::{dedup_ignore_list, string_views};

verus! {

broadcast use vstd::std_specs::hash::group_hash_axioms;

/// An id that counts: positive.
pub open spec fn positive_id(v: Option<i64>) -> Option<i64> {
    match v {
        Some(x) => if x > 0 {
            Some(x)
        } else {
            None
        },
        None => None,
    }
}

pub open spec fn opt_or<T>(a: Option<T>, b: Option<T>) -> Option<T> {
    match a {
        Some(x) => Some(x),
        None => b,
    }
}

pub open spec fn opt_str(o: Option<String>) -> Option<Seq<char>> {
    match o {
        Some(s) => Some(s@),
        None => None,
    }
}

pub open spec fn airport_keys() -> Seq<Seq<char>> {
    seq!["airport"@, "Airport"@, "data"@]
}

pub open spec fn scenery_list_keys() -> Seq<Seq<char>> {
    seq!["scenery"@, "Sceneries"@, "sceneries"@, "results"@, "items"@]
}

pub open spec fn metadata_keys() -> Seq<Seq<char>> {
    seq!["metadata"@, "Metadata"@]
}

pub open spec fn code_keys() -> Seq<Seq<char>> {
    seq!["AirportCode"@, "airportCode"@, "icao"@, "ICAO"@, "code"@, "ident"@]
}

pub open spec fn name_keys() -> Seq<Seq<char>> {
    seq!["AirportName"@, "airportName"@, "aptName"@, "name"@, "Name"@]
}

pub open spec fn artist_keys() -> Seq<Seq<char>> {
    seq![
        "userName"@,
        "username"@,
        "artist"@,
        "artistName"@,
        "author"@,
        "authorName"@,
        "submittedBy"@,
    ]
}

pub open spec fn user_keys() -> Seq<Seq<char>> {
    seq!["user"@, "User"@]
}

pub open spec fn user_name_keys() -> Seq<Seq<char>> {
    seq!["name"@, "username"@, "displayName"@, "userName"@]
}

pub open spec fn summary_date_keys() -> Seq<Seq<char>> {
    seq![
        "dateAccepted"@,
        "dateApproved"@,
        "acceptedAt"@,
        "approvedDate"@,
        "approvalDate"@,
        "approvedAt"@,
        "date"@,
        "updatedAt"@,
    ]
}

pub open spec fn approved_date_keys() -> Seq<Seq<char>> {
    seq![
        "dateApproved"@,
        "dateAccepted"@,
        "approvedDate"@,
        "approvalDate"@,
        "acceptedAt"@,
        "updatedAt"@,
    ]
}

pub open spec fn status_keys() -> Seq<Seq<char>> {
    seq!["status"@, "gatewayStatus"@, "submissionStatus"@, "approvalStatus"@, "state"@]
}

pub open spec fn recommended_id_keys() -> Seq<Seq<char>> {
    seq!["RecommendedSceneryId"@, "recommendedSceneryId"@, "recommended_scenery_id"@]
}

pub open spec fn recommended_object_keys() -> Seq<Seq<char>> {
    seq!["recommendedScenery"@, "RecommendedScenery"@]
}

pub open spec fn id_keys() -> Seq<Seq<char>> {
    seq!["id"@, "sceneryId"@, "SceneryId"@]
}

pub open spec fn scenery_id_keys() -> Seq<Seq<char>> {
    seq!["sceneryId"@, "SceneryId"@, "id"@]
}

pub open spec fn count_keys() -> Seq<Seq<char>> {
    seq![
        "SubmissionCount"@,
        "ApprovedSceneryCount"@,
        "AcceptedSceneryCount"@,
        "sceneryCount"@,
        "SceneryCount"@,
        "totalSceneries"@,
    ]
}

/// The object that describes the airport: under `airport`, `Airport` or
/// `data`, else the reply itself.
pub open spec fn airport_obj(root: Seq<JsonMember>) -> Seq<JsonMember> {
    match pick_obj(root, airport_keys()) {
        Some(o) => o@,
        None => root,
    }
}

pub fn pick_gateway_airport_object(root: &Vec<JsonMember>) -> (r: &Vec<JsonMember>)
    ensures
        r@ == airport_obj(root@),
{
    let keys = ["airport", "Airport", "data"];
    assert(str_views(keys@) =~= airport_keys());
    match pick_object(root, &keys) {
        Some(o) => o,
        None => root,
    }
}

/// The submissions of the airport: the first list found in the reply,
/// else in the airport object.
pub open spec fn scenery_items(root: Seq<JsonMember>, airport: Seq<JsonMember>) -> Seq<JsonValue> {
    match pick_arr(root, scenery_list_keys()) {
        Some(a) => a@,
        None => match pick_arr(airport, scenery_list_keys()) {
            Some(a) => a@,
            None => Seq::empty(),
        },
    }
}

pub fn pick_gateway_scenery_list<'a>(root: &'a Vec<JsonMember>, airport: &'a Vec<JsonMember>) -> (r:
    Option<&'a Vec<JsonValue>>)
    ensures
        match r {
            Some(a) => a@ == scenery_items(root@, airport@),
            None => scenery_items(root@, airport@).len() == 0,
        },
{
    let keys = ["scenery", "Sceneries", "sceneries", "results", "items"];
    assert(str_views(keys@) =~= scenery_list_keys());
    match pick_array(root, &keys) {
        Some(a) => Some(a),
        None => pick_array(airport, &keys),
    }
}

/// The metadata object of the reply or of the airport.
pub open spec fn metadata_obj(root: Seq<JsonMember>, airport: Seq<JsonMember>) -> Option<Vec<JsonMember>> {
    opt_or(pick_obj(root, metadata_keys()), pick_obj(airport, metadata_keys()))
}

pub fn pick_gateway_metadata<'a>(root: &'a Vec<JsonMember>, airport: &'a Vec<JsonMember>) -> (r: Option<
    &'a Vec<JsonMember>,
>)
    ensures
        match metadata_obj(root@, airport@) {
            Some(m) => r matches Some(x) && *x == m,
            None => r is None,
        },
{
    let keys = ["metadata", "Metadata"];
    assert(str_views(keys@) =~= metadata_keys());
    match pick_object(root, &keys) {
        Some(m) => Some(m),
        None => pick_object(airport, &keys),
    }
}

pub fn pick_gateway_airport_code(record: &Vec<JsonMember>) -> (r: Option<String>)
    ensures
        opt_str(r) == pick_text(record@, code_keys()),
{
    let keys = ["AirportCode", "airportCode", "icao", "ICAO", "code", "ident"];
    assert(str_views(keys@) =~= code_keys());
    pick_string(record, &keys)
}

pub fn pick_gateway_airport_name(record: &Vec<JsonMember>) -> (r: Option<String>)
    ensures
        opt_str(r) == pick_text(record@, name_keys()),
{
    let keys = ["AirportName", "airportName", "aptName", "name", "Name"];
    assert(str_views(keys@) =~= name_keys());
    pick_string(record, &keys)
}

/// The artist of a submission: its own name fields, else the name of its
/// user object.
pub open spec fn artist_of(record: Seq<JsonMember>) -> Option<Seq<char>> {
    match pick_text(record, artist_keys()) {
        Some(a) => Some(a),
        None => match pick_obj(record, user_keys()) {
            Some(u) => pick_text(u@, user_name_keys()),
            None => None,
        },
    }
}

pub fn pick_gateway_artist(record: &Vec<JsonMember>) -> (r: Option<String>)
    ensures
        opt_str(r) == artist_of(record@),
{
    let keys = ["userName", "username", "artist", "artistName", "author", "authorName", "submittedBy"];
    assert(str_views(keys@) =~= artist_keys());
    match pick_string(record, &keys) {
        Some(a) => Some(a),
        None => {
            let uk = ["user", "User"];
            assert(str_views(uk@) =~= user_keys());
            match pick_object(record, &uk) {
                Some(u) => {
                    let nk = ["name", "username", "displayName", "userName"];
                    assert(str_views(nk@) =~= user_name_keys());
                    pick_string(u, &nk)
                },
                None => None,
            }
        },
    }
}

pub fn pick_gateway_summary_date(record: &Vec<JsonMember>) -> (r: Option<String>)
    ensures
        opt_str(r) == pick_text(record@, summary_date_keys()),
{
    let keys = [
        "dateAccepted",
        "dateApproved",
        "acceptedAt",
        "approvedDate",
        "approvalDate",
        "approvedAt",
        "date",
        "updatedAt",
    ];
    assert(str_views(keys@) =~= summary_date_keys());
    pick_string(record, &keys)
}

pub fn pick_gateway_approved_date(record: &Vec<JsonMember>) -> (r: Option<String>)
    ensures
        opt_str(r) == pick_text(record@, approved_date_keys()),
{
    let keys = ["dateApproved", "dateAccepted", "approvedDate", "approvalDate", "acceptedAt", "updatedAt"];
    assert(str_views(keys@) =~= approved_date_keys());
    pick_string(record, &keys)
}

/// The status of a submission: its status fields, else what its dates
/// say (declined, approved, accepted).
pub open spec fn status_of(record: Seq<JsonMember>) -> Option<Seq<char>> {
    match pick_text(record, status_keys()) {
        Some(s) => Some(s),
        None => if pick_text(record, seq!["dateDeclined"@]) is Some {
            Some("Declined"@)
        } else if pick_text(record, seq!["dateApproved"@]) is Some {
            Some("Approved"@)
        } else if pick_text(record, seq!["dateAccepted"@]) is Some {
            Some("Accepted"@)
        } else {
            None
        },
    }
}

pub fn pick_gateway_status(record: &Vec<JsonMember>) -> (r: Option<String>)
    ensures
        opt_str(r) == status_of(record@),
{
    let keys = ["status", "gatewayStatus", "submissionStatus", "approvalStatus", "state"];
    assert(str_views(keys@) =~= status_keys());
    match pick_string(record, &keys) {
        Some(s) => Some(s),
        None => {
            let declined = ["dateDeclined"];
            let approved = ["dateApproved"];
            let accepted = ["dateAccepted"];
            assert(str_views(declined@) =~= seq!["dateDeclined"@]);
            assert(str_views(approved@) =~= seq!["dateApproved"@]);
            assert(str_views(accepted@) =~= seq!["dateAccepted"@]);
            if pick_string(record, &declined).is_some() {
                Some(string_of(&chars_of("Declined")))
            } else if pick_string(record, &approved).is_some() {
                Some(string_of(&chars_of("Approved")))
            } else if pick_string(record, &accepted).is_some() {
                Some(string_of(&chars_of("Accepted")))
            } else {
                None
            }
        },
    }
}

/// The comment of a submission: the artist's and the moderator's comments
/// (one when they are the same), else its general comment field; joined by
/// a blank line.
pub open spec fn comment_of(record: Seq<JsonMember>) -> Option<Seq<char>> {
    let a = pick_text(record, seq!["artistComments"@]);
    let m = pick_text(record, seq!["moderatorComments"@]);
    match (a, m) {
        (Some(x), Some(y)) => if x == y {
            Some(x)
        } else {
            Some(x + "\n\n"@ + y)
        },
        (Some(x), None) => Some(x),
        (None, Some(y)) => Some(y),
        (None, None) => pick_text(record, seq!["comments"@, "comment"@, "description"@, "notes"@]),
    }
}

pub fn pick_gateway_comment(record: &Vec<JsonMember>) -> (r: Option<String>)
    ensures
        opt_str(r) == comment_of(record@),
{
    let ak = ["artistComments"];
    let mk = ["moderatorComments"];
    let ck = ["comments", "comment", "description", "notes"];
    assert(str_views(ak@) =~= seq!["artistComments"@]);
    assert(str_views(mk@) =~= seq!["moderatorComments"@]);
    assert(str_views(ck@) =~= seq!["comments"@, "comment"@, "description"@, "notes"@]);
    let a = pick_string(record, &ak);
    let m = pick_string(record, &mk);
    match (a, m) {
        (Some(x), Some(y)) => {
            if crate::text::eq_chars(&chars_of(x.as_str()), &chars_of(y.as_str())) {
                Some(x)
            } else {
                let mut v = chars_of(x.as_str());
                crate::text::push_all(&mut v, &chars_of("\n\n"));
                crate::text::push_all(&mut v, &chars_of(y.as_str()));
                Some(string_of(&v))
            }
        },
        (Some(x), None) => Some(x),
        (None, Some(y)) => Some(y),
        (None, None) => pick_string(record, &ck),
    }
}

/// The label of one entry of a feature list: a number names a known
/// feature (or `Feature <n>`), any other text is its own label.
pub open spec fn feature_token_label(t: Seq<char>) -> Seq<char> {
    if all_digits(t) {
        match parse_i64_spec(t) {
            Some(id) => match feature_label(id as i64) {
                Some(n) => n,
                None => "Feature "@ + t,
            },
            None => "Feature "@ + t,
        }
    } else {
        t
    }
}

/// A count as a label, or nothing.
pub open spec fn count_label(prefix: Seq<char>, n: Option<i64>) -> Seq<Seq<char>> {
    match n {
        Some(c) => seq![prefix + dec_int(c as int)],
        None => Seq::empty(),
    }
}

/// A count: under one of the keys, else the length of one of the lists.
pub open spec fn count_of(record: Seq<JsonMember>, keys: Seq<Seq<char>>, lists: Seq<Seq<char>>) -> Option<i64> {
    match pick_int(record, keys) {
        Some(n) => Some(n),
        None => match pick_arr(record, lists) {
            Some(a) => Some(a.len() as i64),
            None => None,
        },
    }
}

/// The first five tags that are texts, trimmed and not blank.
pub open spec fn tag_labels(tags: Seq<JsonValue>) -> Seq<Seq<char>>
    decreases tags.len(),
{
    if tags.len() == 0 {
        Seq::empty()
    } else {
        let prev = tag_labels(tags.drop_last());
        if tags.len() <= 5 && text_of(tags.last()) is Some {
            prev.push(text_of(tags.last())->0)
        } else {
            prev
        }
    }
}

/// The feature labels of a submission, without repeats: its type, its
/// features, its runway, gate and taxiway counts, and its first tags.
pub open spec fn feature_labels(record: Seq<JsonMember>) -> Seq<Seq<char>> {
    let ty = match pick_text(record, seq!["type"@, "Type"@]) {
        Some(t) => seq![t],
        None => Seq::empty(),
    };
    let feats = match pick_text(record, seq!["features"@, "featureFlags"@]) {
        Some(raw) => trimmed_nonblank(split_pieces(raw, ',')).map_values(|t: Seq<char>| feature_token_label(t)),
        None => Seq::empty(),
    };
    let rwy = count_label("RWY "@, count_of(record, seq!["runwayCount"@, "runwaysCount"@], seq!["runways"@, "Runways"@]));
    let gates = count_label("Gates "@, count_of(record, seq!["gateCount"@, "gatesCount"@, "startupCount"@], seq!["gates"@, "startupLocations"@, "ramps"@]));
    let taxi = count_label("Taxiway "@, count_of(record, seq!["taxiwayCount"@, "taxiwaysCount"@], seq!["taxiways"@, "taxiwayEdges"@]));
    let tags = match pick_arr(record, seq!["tags"@]) {
        Some(a) => tag_labels(a@),
        None => Seq::empty(),
    };
    dedup_keep_first(ty + feats + rwy + gates + taxi + tags)
}

fn feature_token_label_exec(t: &[char]) -> (r: String)
    ensures
        r@ == feature_token_label(t@),
{
    let mut digits = true;
    let mut i: usize = 0;
    while i < t.len()
        invariant
            0 <= i <= t.len(),
            digits == forall|j: int| 0 <= j < i ==> is_digit(#[trigger] t@[j]),
        decreases t.len() - i,
    {
        if !('0' <= t[i] && t[i] <= '9') {
            digits = false;
        }
        i = i + 1;
    }
    if digits {
        match parse_i64(t) {
            Some(id) => match gateway_feature_name(id) {
                Some(n) => n,
                None => prefixed("Feature ", t),
            },
            None => prefixed("Feature ", t),
        }
    } else {
        string_of(t)
    }
}

fn prefixed(prefix: &str, t: &[char]) -> (r: String)
    ensures
        r@ == prefix@ + t@,
{
    let mut v = chars_of(prefix);
    push_all(&mut v, t);
    string_of(&v)
}

fn count_of_exec(record: &Vec<JsonMember>, keys: &[&str], lists: &[&str]) -> (r: Option<i64>)
    ensures
        r == count_of(record@, str_views(keys@), str_views(lists@)),
{
    match pick_i64(record, keys) {
        Some(n) => Some(n),
        None => match pick_array(record, lists) {
            Some(a) => Some(a.len() as i64),
            None => None,
        },
    }
}

fn push_count_label(out: &mut Vec<String>, prefix: &str, n: Option<i64>)
    ensures
        string_views(final(out)@) == string_views(old(out)@) + count_label(prefix@, n),
{
    let ghost b = string_views(out@);
    match n {
        Some(c) => {
            let mut v = chars_of(prefix);
            push_all(&mut v, &dec_i64(c));
            out.push(string_of(&v));
            assert(string_views(out@) =~= b + seq![prefix@ + dec_int(c as int)]);
        },
        None => {
            assert(string_views(out@) =~= b + Seq::<Seq<char>>::empty());
        },
    }
}

pub fn parse_gateway_feature_labels(record: &Vec<JsonMember>) -> (r: Vec<String>)
    ensures
        string_views(r@) == feature_labels(record@),
{
    let mut labels: Vec<String> = Vec::new();
    let tk = ["type", "Type"];
    assert(str_views(tk@) =~= seq!["type"@, "Type"@]);
    match pick_string(record, &tk) {
        Some(t) => {
            let ghost tv = t@;
            labels.push(t);
            assert(string_views(labels@) =~= seq![tv]);
        },
        None => {
            assert(string_views(labels@) =~= Seq::<Seq<char>>::empty());
        },
    }
    let ghost after_type = string_views(labels@);
    let fk = ["features", "featureFlags"];
    assert(str_views(fk@) =~= seq!["features"@, "featureFlags"@]);
    match pick_string(record, &fk) {
        Some(raw) => {
            let pieces = split_char(&chars_of(raw.as_str()), ',');
            let ghost ps = seqs(pieces@);
            let ghost toks = trimmed_nonblank(ps);
            let mut k: usize = 0;
            while k < pieces.len()
                invariant
                    0 <= k <= pieces.len(),
                    ps == seqs(pieces@),
                    string_views(labels@) == after_type + trimmed_nonblank(ps.subrange(0, k as int)).map_values(
                        |t: Seq<char>| feature_token_label(t),
                    ),
                decreases pieces.len() - k,
            {
                assert(ps.subrange(0, k + 1).drop_last() =~= ps.subrange(0, k as int));
                assert(ps.subrange(0, k + 1).last() == pieces@[k as int]@);
                let t = trim_vec(&pieces[k]);
                let ghost b = string_views(labels@);
                if t.len() > 0 {
                    labels.push(feature_token_label_exec(&t));
                    assert(trimmed_nonblank(ps.subrange(0, k + 1)).map_values(
                        |t: Seq<char>| feature_token_label(t),
                    ) =~= trimmed_nonblank(ps.subrange(0, k as int)).map_values(
                        |t: Seq<char>| feature_token_label(t),
                    ).push(feature_token_label(t@)));
                    assert(string_views(labels@) =~= b.push(feature_token_label(t@)));
                }
                k = k + 1;
            }
            assert(ps.subrange(0, pieces@.len() as int) =~= ps);
        },
        None => {},
    }
    let rk = ["runwayCount", "runwaysCount"];
    let rl = ["runways", "Runways"];
    let gk = ["gateCount", "gatesCount", "startupCount"];
    let gl = ["gates", "startupLocations", "ramps"];
    let xk = ["taxiwayCount", "taxiwaysCount"];
    let xl = ["taxiways", "taxiwayEdges"];
    assert(str_views(rk@) =~= seq!["runwayCount"@, "runwaysCount"@]);
    assert(str_views(rl@) =~= seq!["runways"@, "Runways"@]);
    assert(str_views(gk@) =~= seq!["gateCount"@, "gatesCount"@, "startupCount"@]);
    assert(str_views(gl@) =~= seq!["gates"@, "startupLocations"@, "ramps"@]);
    assert(str_views(xk@) =~= seq!["taxiwayCount"@, "taxiwaysCount"@]);
    assert(str_views(xl@) =~= seq!["taxiways"@, "taxiwayEdges"@]);
    let runways = count_of_exec(record, &rk, &rl);
    let gates = count_of_exec(record, &gk, &gl);
    let taxiways = count_of_exec(record, &xk, &xl);
    push_count_label(&mut labels, "RWY ", runways);
    push_count_label(&mut labels, "Gates ", gates);
    push_count_label(&mut labels, "Taxiway ", taxiways);
    let ghost before_tags = string_views(labels@);
    let tg = ["tags"];
    assert(str_views(tg@) =~= seq!["tags"@]);
    match pick_array(record, &tg) {
        Some(tags) => {
            let ghost tv = tags@;
            let mut q: usize = 0;
            while q < tags.len()
                invariant
                    0 <= q <= tags.len(),
                    tv == tags@,
                    string_views(labels@) == before_tags + tag_labels(tv.subrange(0, q as int)),
                decreases tags.len() - q,
            {
                assert(tv.subrange(0, q + 1).drop_last() =~= tv.subrange(0, q as int));
                assert(tv.subrange(0, q + 1).last() == tags@[q as int]);
                if q < 5 {
                    match text_value(&tags[q]) {
                        Some(t) => {
                            let ghost b = string_views(labels@);
                            let ghost t_v = t@;
                            labels.push(t);
                            assert(string_views(labels@) =~= b.push(t_v));
                        },
                        None => {},
                    }
                }
                q = q + 1;
            }
            assert(tv.subrange(0, tags@.len() as int) =~= tv);
        },
        None => {
            assert(string_views(labels@) =~= before_tags + Seq::<Seq<char>>::empty());
        },
    }
    dedup_ignore_list(labels)
}

/// The first submission in the list that is an object with the id.
pub open spec fn submission_with_id(items: Seq<JsonValue>, id: i64) -> Option<Vec<JsonMember>>
    decreases items.len(),
{
    if items.len() == 0 {
        None
    } else {
        match items[0] {
            JsonValue::Object(o) => if positive_id(pick_int(o@, scenery_id_keys())) == Some(id) {
                Some(o)
            } else {
                submission_with_id(items.drop_first(), id)
            },
            _ => submission_with_id(items.drop_first(), id),
        }
    }
}

/// An airport summary as plain values: code, name, submission count,
/// recommended submission, its artist and its acceptance date.
pub type SummaryView = (Seq<char>, Option<Seq<char>>, Option<i64>, Option<i64>, Option<Seq<char>>, Option<Seq<char>>);

pub open spec fn summary_view(s: GatewayAirportSummaryData) -> SummaryView {
    (s.icao@, opt_str(s.airport_name), s.scenery_count, s.recommended_scenery_id, opt_str(s.recommended_artist), opt_str(s.recommended_accepted_at))
}

/// The recommended submission id: under the airport, else the reply,
/// else in the recommended-scenery object of the reply, else of the
/// airport; positive ids only.
pub open spec fn recommended_id_of(root: Seq<JsonMember>, airport: Seq<JsonMember>) -> Option<i64> {
    let a = pick_int(airport, recommended_id_keys());
    let b = pick_int(root, recommended_id_keys());
    let c = match pick_obj(root, recommended_object_keys()) {
        Some(o) => pick_int(o@, id_keys()),
        None => None,
    };
    let d = match pick_obj(airport, recommended_object_keys()) {
        Some(o) => pick_int(o@, id_keys()),
        None => None,
    };
    positive_id(opt_or(a, opt_or(b, opt_or(c, d))))
}

/// What an airport reply summarises to: the airport code (from the airport,
/// the reply, or the fallback; trimmed, upper-cased) must not be empty,
/// and at least one other field must be known.
pub open spec fn airport_summary(payload: JsonValue, fallback_icao: Seq<char>) -> Option<SummaryView> {
    match payload {
        JsonValue::Object(root_v) => {
            let root = root_v@;
            let airport = airport_obj(root);
            let items = scenery_items(root, airport);
            let meta = metadata_obj(root, airport);
            let code = ascii_upper_seq(
                trim(
                    match opt_or(pick_text(airport, code_keys()), pick_text(root, code_keys())) {
                        Some(c) => c,
                        None => fallback_icao,
                    },
                ),
            );
            if code.len() == 0 {
                None
            } else {
                let name = opt_or(pick_text(airport, name_keys()), pick_text(root, name_keys()));
                let rec_id = recommended_id_of(root, airport);
                let rec = match rec_id {
                    Some(t) => submission_with_id(items, t),
                    None => None,
                };
                let count = opt_or(
                    pick_int(airport, count_keys()),
                    opt_or(
                        pick_int(root, count_keys()),
                        if items.len() > 0 {
                            Some(items.len() as i64)
                        } else {
                            None
                        },
                    ),
                );
                let artist = opt_or(
                    match rec {
                        Some(r) => artist_of(r@),
                        None => None,
                    },
                    match meta {
                        Some(m) => artist_of(m@),
                        None => None,
                    },
                );
                let accepted = opt_or(
                    match rec {
                        Some(r) => pick_text(r@, summary_date_keys()),
                        None => None,
                    },
                    match meta {
                        Some(m) => pick_text(m@, summary_date_keys()),
                        None => None,
                    },
                );
                if rec_id is None && count is None && name is None && artist is None && accepted is None {
                    None
                } else {
                    Some((code, name, count, rec_id, artist, accepted))
                }
            }
        },
        _ => None,
    }
}

fn find_submission<'a>(items: &'a Vec<JsonValue>, id: i64) -> (r: Option<&'a Vec<JsonMember>>)
    ensures
        match submission_with_id(items@, id) {
            Some(o) => r matches Some(x) && *x == o,
            None => r is None,
        },
{
    let keys = ["sceneryId", "SceneryId", "id"];
    assert(str_views(keys@) =~= scenery_id_keys());
    let mut i: usize = 0;
    assert(items@.subrange(0, items@.len() as int) =~= items@);
    while i < items.len()
        invariant
            0 <= i <= items.len(),
            str_views(keys@) == scenery_id_keys(),
            submission_with_id(items@, id) == submission_with_id(items@.subrange(i as int, items@.len() as int), id),
        decreases items.len() - i,
    {
        let ghost rest = items@.subrange(i as int, items@.len() as int);
        assert(rest[0] == items@[i as int]);
        assert(rest.drop_first() =~= items@.subrange(i + 1, items@.len() as int));
        match &items[i] {
            JsonValue::Object(o) => {
                if normalize_gateway_id(pick_i64(o, &keys)) == Some(id) {
                    return Some(o);
                }
            },
            _ => {},
        }
        i = i + 1;
    }
    assert(items@.subrange(i as int, items@.len() as int) =~= Seq::<JsonValue>::empty());
    None
}

fn recommended_id_exec(root: &Vec<JsonMember>, airport: &Vec<JsonMember>) -> (r: Option<i64>)
    ensures
        r == recommended_id_of(root@, airport@),
{
    let rk = ["RecommendedSceneryId", "recommendedSceneryId", "recommended_scenery_id"];
    let ok = ["recommendedScenery", "RecommendedScenery"];
    let ik = ["id", "sceneryId", "SceneryId"];
    assert(str_views(rk@) =~= recommended_id_keys());
    assert(str_views(ok@) =~= recommended_object_keys());
    assert(str_views(ik@) =~= id_keys());
    let a = pick_i64(airport, &rk);
    let b = pick_i64(root, &rk);
    let c = match pick_object(root, &ok) {
        Some(o) => pick_i64(o, &ik),
        None => None,
    };
    let d = match pick_object(airport, &ok) {
        Some(o) => pick_i64(o, &ik),
        None => None,
    };
    let first = match a {
        Some(x) => Some(x),
        None => match b {
            Some(x) => Some(x),
            None => match c {
                Some(x) => Some(x),
                None => d,
            },
        },
    };
    normalize_gateway_id(first)
}

fn opt_or_string(a: Option<String>, b: Option<String>) -> (r: Option<String>)
    ensures
        opt_str(r) == opt_or(opt_str(a), opt_str(b)),
{
    match a {
        Some(x) => Some(x),
        None => b,
    }
}

pub fn parse_gateway_airport_summary(payload: &JsonValue, fallback_icao: &str) -> (r: Option<
    GatewayAirportSummaryData,
>)
    ensures
        match airport_summary(*payload, fallback_icao@) {
            Some(v) => r matches Some(s) && summary_view(s) == v,
            None => r is None,
        },
{
    let root = match payload {
        JsonValue::Object(o) => o,
        _ => {
            return None;
        },
    };
    let airport = pick_gateway_airport_object(root);
    let items = pick_gateway_scenery_list(root, airport);
    let meta = pick_gateway_metadata(root, airport);
    let code_raw = match opt_or_string(pick_gateway_airport_code(airport), pick_gateway_airport_code(root)) {
        Some(c) => chars_of(c.as_str()),
        None => chars_of(fallback_icao),
    };
    let code = ascii_upper_vec(&trim_vec(&code_raw));
    if code.len() == 0 {
        return None;
    }
    let name = opt_or_string(pick_gateway_airport_name(airport), pick_gateway_airport_name(root));
    let rec_id = recommended_id_exec(root, airport);
    let rec = match (rec_id, items) {
        (Some(t), Some(list)) => find_submission(list, t),
        _ => None,
    };
    proof {
        if rec_id is Some && items is None {
            assert(scenery_items(root@, airport@) =~= Seq::<JsonValue>::empty());
        }
    }
    let ck = [
        "SubmissionCount",
        "ApprovedSceneryCount",
        "AcceptedSceneryCount",
        "sceneryCount",
        "SceneryCount",
        "totalSceneries",
    ];
    assert(str_views(ck@) =~= count_keys());
    let count = match pick_i64(airport, &ck) {
        Some(n) => Some(n),
        None => match pick_i64(root, &ck) {
            Some(n) => Some(n),
            None => match items {
                Some(list) => if list.len() > 0 {
                    Some(list.len() as i64)
                } else {
                    None
                },
                None => None,
            },
        },
    };
    let artist = opt_or_string(
        match rec {
            Some(r) => pick_gateway_artist(r),
            None => None,
        },
        match meta {
            Some(m) => pick_gateway_artist(m),
            None => None,
        },
    );
    let accepted = opt_or_string(
        match rec {
            Some(r) => pick_gateway_summary_date(r),
            None => None,
        },
        match meta {
            Some(m) => pick_gateway_summary_date(m),
            None => None,
        },
    );
    if rec_id.is_none() && count.is_none() && name.is_none() && artist.is_none() && accepted.is_none() {
        return None;
    }
    Some(
        GatewayAirportSummaryData {
            icao: string_of(&code),
            airport_name: name,
            scenery_count: count,
            recommended_scenery_id: rec_id,
            recommended_artist: artist,
            recommended_accepted_at: accepted,
        },
    )
}

/// A list kept in order by inserting each element after every element it
/// does not come before (a stable sort when `before` is a strict order).
pub open spec fn insert_ordered<A>(s: Seq<A>, x: A, before: spec_fn(A, A) -> bool) -> Seq<A>
    decreases s.len(),
{
    if s.len() == 0 {
        seq![x]
    } else if before(x, s.last()) {
        insert_ordered(s.drop_last(), x, before).push(s.last())
    } else {
        s.push(x)
    }
}

/// The elements sorted stably by `before`.
pub open spec fn sort_ordered<A>(s: Seq<A>, before: spec_fn(A, A) -> bool) -> Seq<A>
    decreases s.len(),
{
    if s.len() == 0 {
        Seq::empty()
    } else {
        insert_ordered(sort_ordered(s.drop_last(), before), s.last(), before)
    }
}

/// Inserting at the place found from the back.
pub proof fn lemma_insert_ordered_at<A>(s: Seq<A>, x: A, before: spec_fn(A, A) -> bool, p: int)
    requires
        0 <= p <= s.len(),
        forall|q: int| p <= q < s.len() ==> before(x, #[trigger] s[q]),
        p == 0 || !before(x, s[p - 1]),
    ensures
        insert_ordered(s, x, before) == s.subrange(0, p).push(x) + s.subrange(p, s.len() as int),
    decreases s.len() - p,
{
    if p == s.len() {
        if s.len() == 0 {
            assert(s.subrange(0, p).push(x) + s.subrange(p, s.len() as int) =~= seq![x]);
        } else {
            assert(s.subrange(0, p) =~= s);
            assert(s.subrange(p, s.len() as int) =~= Seq::<A>::empty());
            assert(s.push(x) + Seq::<A>::empty() =~= s.push(x));
        }
    } else {
        let t = s.drop_last();
        assert forall|q: int| p <= q < t.len() implies before(x, #[trigger] t[q]) by {
            assert(t[q] == s[q]);
        }
        if p > 0 {
            assert(t[p - 1] == s[p - 1]);
        }
        assert(before(x, s[s.len() - 1]));
        lemma_insert_ordered_at(t, x, before, p);
        assert(t.subrange(0, p) =~= s.subrange(0, p));
        assert((t.subrange(0, p).push(x) + t.subrange(p, t.len() as int)).push(s.last()) =~= s.subrange(0, p).push(x)
            + s.subrange(p, s.len() as int));
    }
}

/// A submission as plain values: id, artist, status, approval date,
/// comment, whether recommended.
pub type SceneryView = (i64, Option<Seq<char>>, Option<Seq<char>>, Option<Seq<char>>, Option<Seq<char>>, bool);

pub open spec fn scenery_view(s: GatewayScenerySummary) -> SceneryView {
    (s.scenery_id, opt_str(s.artist), opt_str(s.status), opt_str(s.approved_date), opt_str(s.comment), s.recommended)
}

pub open spec fn scenery_views(v: Seq<GatewayScenerySummary>) -> Seq<SceneryView> {
    v.map_values(|s: GatewayScenerySummary| scenery_view(s))
}

/// A later date text comes first; a date comes before none.
pub open spec fn date_after(a: Option<Seq<char>>, b: Option<Seq<char>>) -> bool {
    match (a, b) {
        (Some(x), Some(y)) => seq_less(y, x),
        (Some(_), None) => true,
        _ => false,
    }
}

/// Submission order: recommended first, then the latest approval, then the
/// highest id.
pub open spec fn scenery_before(a: SceneryView, b: SceneryView) -> bool {
    (a.5 && !b.5) || (a.5 == b.5 && (date_after(a.3, b.3) || (a.3 == b.3 && a.0 > b.0)))
}

/// The submissions of the list that are objects with a positive id, in
/// order.
pub open spec fn submissions_of(items: Seq<JsonValue>, rec_id: Option<i64>) -> Seq<SceneryView>
    decreases items.len(),
{
    if items.len() == 0 {
        Seq::empty()
    } else {
        let prev = submissions_of(items.drop_last(), rec_id);
        match items.last() {
            JsonValue::Object(o) => match positive_id(pick_int(o@, scenery_id_keys())) {
                Some(id) => prev.push(
                    (id, artist_of(o@), status_of(o@), pick_text(o@, approved_date_keys()), comment_of(o@), rec_id == Some(id)),
                ),
                None => prev,
            },
            _ => prev,
        }
    }
}

/// What an airport reply gives in detail: its summary (with the number of
/// listed submissions as the count when it names none) and its
/// submissions, ordered.
pub open spec fn airport_detail(payload: JsonValue, fallback_icao: Seq<char>) -> Option<(SummaryView, Seq<SceneryView>)> {
    match airport_summary(payload, fallback_icao) {
        None => None,
        Some(sv) => match payload {
            JsonValue::Object(root_v) => {
                let root = root_v@;
                let airport = airport_obj(root);
                let subs = sort_ordered(submissions_of(scenery_items(root, airport), sv.3), |a: SceneryView, b: SceneryView| scenery_before(a, b));
                let count = match sv.2 {
                    Some(c) => Some(c),
                    None => Some(subs.len() as i64),
                };
                Some(((sv.0, sv.1, count, sv.3, sv.4, sv.5), subs))
            },
            _ => None,
        },
    }
}

fn opt_chars_less(a: &Option<String>, b: &Option<String>) -> (r: bool)
    ensures
        r == date_after(opt_str(*b), opt_str(*a)),
{
    match (a, b) {
        (Some(x), Some(y)) => chars_less(&chars_of(x.as_str()), &chars_of(y.as_str())),
        (None, Some(_)) => true,
        _ => false,
    }
}

fn opt_str_eq(a: &Option<String>, b: &Option<String>) -> (r: bool)
    ensures
        r == (opt_str(*a) == opt_str(*b)),
{
    match (a, b) {
        (Some(x), Some(y)) => crate::text::eq_chars(&chars_of(x.as_str()), &chars_of(y.as_str())),
        (None, None) => true,
        _ => false,
    }
}

fn scenery_before_exec(a: &GatewayScenerySummary, b: &GatewayScenerySummary) -> (r: bool)
    ensures
        r == scenery_before(scenery_view(*a), scenery_view(*b)),
{
    (a.recommended && !b.recommended) || (a.recommended == b.recommended && (opt_chars_less(
        &b.approved_date,
        &a.approved_date,
    ) || (opt_str_eq(&a.approved_date, &b.approved_date) && a.scenery_id > b.scenery_id)))
}

/// Sorts submissions: recommended first, then by approval date and id,
/// both descending; equal ones keep their order.
pub fn sort_sceneries(v: Vec<GatewayScenerySummary>) -> (r: Vec<GatewayScenerySummary>)
    ensures
        scenery_views(r@) == sort_ordered(scenery_views(v@), |a: SceneryView, b: SceneryView| scenery_before(a, b)),
{
    let ghost f = |a: SceneryView, b: SceneryView| scenery_before(a, b);
    let ghost all = scenery_views(v@);
    let n = v.len();
    let mut rest = v;
    let mut out: Vec<GatewayScenerySummary> = Vec::new();
    assert(all.subrange(0, 0) =~= Seq::<SceneryView>::empty());
    assert(scenery_views(rest@) =~= all.subrange(0, n as int));
    assert(scenery_views(out@) =~= Seq::<SceneryView>::empty());
    while rest.len() > 0
        invariant
            rest.len() <= n,
            n == all.len(),
            f == (|a: SceneryView, b: SceneryView| scenery_before(a, b)),
            scenery_views(rest@) == all.subrange((n - rest.len()) as int, n as int),
            scenery_views(out@) == sort_ordered(all.subrange(0, (n - rest.len()) as int), f),
        decreases rest.len(),
    {
        let ghost k = (n - rest.len()) as int;
        let ghost rv = scenery_views(rest@);
        let x = rest.remove(0);
        assert(scenery_view(x) == rv[0]);
        assert(all[k] == rv[0]);
        assert(scenery_views(rest@) =~= rv.drop_first());
        assert(all.subrange(k, n as int).drop_first() =~= all.subrange(k + 1, n as int));
        assert(all.subrange(0, k + 1).drop_last() =~= all.subrange(0, k));
        assert(all.subrange(0, k + 1).last() == all[k]);
        let ghost sv = scenery_views(out@);
        let mut p: usize = out.len();
        while p > 0 && scenery_before_exec(&x, &out[p - 1])
            invariant
                0 <= p <= out.len(),
                sv == scenery_views(out@),
                forall|q: int| p <= q < sv.len() ==> scenery_before(scenery_view(x), #[trigger] sv[q]),
            decreases p,
        {
            assert(sv[p - 1] == scenery_view(out@[p - 1]));
            p = p - 1;
        }
        proof {
            if p > 0 {
                assert(sv[p - 1] == scenery_view(out@[p - 1]));
            }
            assert forall|q: int| p <= q < sv.len() implies f(scenery_view(x), #[trigger] sv[q]) by {}
            lemma_insert_ordered_at(sv, scenery_view(x), f, p as int);
        }
        out.insert(p, x);
        assert(scenery_views(out@) =~= sv.subrange(0, p as int).push(all[k]) + sv.subrange(p as int, sv.len() as int));
    }
    assert(all.subrange(0, n as int) =~= all);
    out
}

fn submissions_exec(items: Option<&Vec<JsonValue>>, rec_id: Option<i64>) -> (r: Vec<GatewayScenerySummary>)
    ensures
        scenery_views(r@) == submissions_of(
            match items {
                Some(a) => a@,
                None => Seq::empty(),
            },
            rec_id,
        ),
{
    let mut out: Vec<GatewayScenerySummary> = Vec::new();
    let list = match items {
        Some(a) => a,
        None => {
            assert(scenery_views(out@) =~= Seq::<SceneryView>::empty());
            return out;
        },
    };
    let keys = ["sceneryId", "SceneryId", "id"];
    assert(str_views(keys@) =~= scenery_id_keys());
    let mut i: usize = 0;
    while i < list.len()
        invariant
            0 <= i <= list.len(),
            str_views(keys@) == scenery_id_keys(),
            scenery_views(out@) == submissions_of(list@.subrange(0, i as int), rec_id),
        decreases list.len() - i,
    {
        assert(list@.subrange(0, i + 1).drop_last() =~= list@.subrange(0, i as int));
        assert(list@.subrange(0, i + 1).last() == list@[i as int]);
        match &list[i] {
            JsonValue::Object(o) => match normalize_gateway_id(pick_i64(o, &keys)) {
                Some(id) => {
                    let ghost b = scenery_views(out@);
                    let item = GatewayScenerySummary {
                        scenery_id: id,
                        artist: pick_gateway_artist(o),
                        status: pick_gateway_status(o),
                        approved_date: pick_gateway_approved_date(o),
                        comment: pick_gateway_comment(o),
                        recommended: rec_id == Some(id),
                    };
                    out.push(item);
                    assert(scenery_views(out@) =~= b.push(scenery_view(item)));
                },
                None => {},
            },
            _ => {},
        }
        i = i + 1;
    }
    assert(list@.subrange(0, list@.len() as int) =~= list@);
    out
}

pub fn parse_gateway_airport_detail(payload: &JsonValue, fallback_icao: &str) -> (r: Option<
    GatewayAirportDetail,
>)
    ensures
        match airport_detail(*payload, fallback_icao@) {
            Some((sv, subs)) => r matches Some(d) && {
                &&& (d.icao@, opt_str(d.airport_name), d.scenery_count, d.recommended_scenery_id, opt_str(d.recommended_artist), opt_str(d.recommended_accepted_at)) == sv
                &&& scenery_views(d.sceneries@) == subs
                &&& d.ahead_of_current_xplane is None
                &&& d.current_xplane_release_version is None
                &&& d.current_xplane_release_date is None
                &&& d.current_xplane_scenery_id is None
                &&& d.current_xplane_artist is None
                &&& d.current_xplane_approved_date is None
            },
            None => r is None,
        },
{
    let summary = match parse_gateway_airport_summary(payload, fallback_icao) {
        Some(s) => s,
        None => {
            return None;
        },
    };
    let root = match payload {
        JsonValue::Object(o) => o,
        _ => {
            return None;
        },
    };
    let airport = pick_gateway_airport_object(root);
    let items = pick_gateway_scenery_list(root, airport);
    proof {
        if items is None {
            assert(scenery_items(root@, airport@) =~= Seq::<JsonValue>::empty());
        }
    }
    let subs = sort_sceneries(submissions_exec(items, summary.recommended_scenery_id));
    let count = match summary.scenery_count {
        Some(c) => Some(c),
        None => Some(subs.len() as i64),
    };
    Some(
        GatewayAirportDetail {
            icao: summary.icao,
            airport_name: summary.airport_name,
            scenery_count: count,
            recommended_scenery_id: summary.recommended_scenery_id,
            recommended_artist: summary.recommended_artist,
            recommended_accepted_at: summary.recommended_accepted_at,
            sceneries: subs,
            ahead_of_current_xplane: None,
            current_xplane_release_version: None,
            current_xplane_release_date: None,
            current_xplane_scenery_id: None,
            current_xplane_artist: None,
            current_xplane_approved_date: None,
        },
    )
}

/// A submission detail as plain values: id, airport code, airport name,
/// status, artist, approval date, comment, features, archive text.
pub type SceneryDetailView = (i64, Option<Seq<char>>, Option<Seq<char>>, Option<Seq<char>>, Option<Seq<char>>, Option<Seq<char>>, Option<Seq<char>>, Seq<Seq<char>>, Option<Seq<char>>);

/// What a submission reply gives: the submission object (under `scenery`,
/// `Scenery` or `data`, else the reply), its airport object, its fields,
/// and the archive text; nothing when it holds no field and no positive
/// id.
pub open spec fn scenery_detail(payload: JsonValue, fallback_id: i64) -> Option<SceneryDetailView> {
    match payload {
        JsonValue::Object(root_v) => {
            let root = root_v@;
            let detail = match pick_obj(root, seq!["scenery"@, "Scenery"@, "data"@]) {
                Some(o) => o@,
                None => root,
            };
            let airport = opt_or(pick_obj(detail, seq!["airport"@, "Airport"@]), pick_obj(root, seq!["airport"@, "Airport"@]));
            let id = match positive_id(pick_int(detail, scenery_id_keys())) {
                Some(i) => i,
                None => fallback_id,
            };
            let artist = artist_of(detail);
            let status = status_of(detail);
            let approved = pick_text(detail, approved_date_keys());
            let comment = comment_of(detail);
            let features = feature_labels(detail);
            let icao = opt_or(
                match airport {
                    Some(a) => pick_text(a@, code_keys()),
                    None => None,
                },
                opt_or(pick_text(detail, code_keys()), pick_text(root, code_keys())),
            );
            let name = opt_or(
                match airport {
                    Some(a) => pick_text(a@, name_keys()),
                    None => None,
                },
                opt_or(pick_text(detail, name_keys()), pick_text(root, name_keys())),
            );
            let blob = opt_or(
                pick_text(detail, seq!["masterZipBlob"@, "MasterZipBlob"@, "master_zip_blob"@, "blob"@]),
                match pick_obj(detail, seq!["sceneryFiles"@, "SceneryFiles"@]) {
                    Some(f) => pick_text(f@, seq!["masterZipBlob"@, "MasterZipBlob"@]),
                    None => None,
                },
            );
            if status is None && artist is None && approved is None && comment is None && features.len() == 0 && id <= 0 {
                None
            } else {
                Some((id, icao, name, status, artist, approved, comment, features, blob))
            }
        },
        _ => None,
    }
}

pub fn parse_gateway_scenery_detail(payload: &JsonValue, fallback_scenery_id: i64) -> (r: Option<
    GatewaySceneryInstallPayload,
>)
    ensures
        match scenery_detail(*payload, fallback_scenery_id) {
            Some(v) => r matches Some(d) && (d.scenery_id, opt_str(d.icao), opt_str(d.airport_name), opt_str(d.status), opt_str(d.artist), opt_str(d.approved_date), opt_str(d.comment), string_views(d.features@), opt_str(d.master_zip_blob)) == v,
            None => r is None,
        },
{
    let root = match payload {
        JsonValue::Object(o) => o,
        _ => {
            return None;
        },
    };
    let dk = ["scenery", "Scenery", "data"];
    let ak = ["airport", "Airport"];
    let sk = ["sceneryId", "SceneryId", "id"];
    let bk = ["masterZipBlob", "MasterZipBlob", "master_zip_blob", "blob"];
    let fk = ["sceneryFiles", "SceneryFiles"];
    let bk2 = ["masterZipBlob", "MasterZipBlob"];
    assert(str_views(dk@) =~= seq!["scenery"@, "Scenery"@, "data"@]);
    assert(str_views(ak@) =~= seq!["airport"@, "Airport"@]);
    assert(str_views(sk@) =~= scenery_id_keys());
    assert(str_views(bk@) =~= seq!["masterZipBlob"@, "MasterZipBlob"@, "master_zip_blob"@, "blob"@]);
    assert(str_views(fk@) =~= seq!["sceneryFiles"@, "SceneryFiles"@]);
    assert(str_views(bk2@) =~= seq!["masterZipBlob"@, "MasterZipBlob"@]);
    let detail = match pick_object(root, &dk) {
        Some(o) => o,
        None => root,
    };
    let airport = match pick_object(detail, &ak) {
        Some(a) => Some(a),
        None => pick_object(root, &ak),
    };
    let id = match normalize_gateway_id(pick_i64(detail, &sk)) {
        Some(i) => i,
        None => fallback_scenery_id,
    };
    let artist = pick_gateway_artist(detail);
    let status = pick_gateway_status(detail);
    let approved = pick_gateway_approved_date(detail);
    let comment = pick_gateway_comment(detail);
    let features = parse_gateway_feature_labels(detail);
    let icao = opt_or_string(
        match airport {
            Some(a) => pick_gateway_airport_code(a),
            None => None,
        },
        opt_or_string(pick_gateway_airport_code(detail), pick_gateway_airport_code(root)),
    );
    let name = opt_or_string(
        match airport {
            Some(a) => pick_gateway_airport_name(a),
            None => None,
        },
        opt_or_string(pick_gateway_airport_name(detail), pick_gateway_airport_name(root)),
    );
    let blob = opt_or_string(
        pick_string(detail, &bk),
        match pick_object(detail, &fk) {
            Some(f) => pick_string(f, &bk2),
            None => None,
        },
    );
    if status.is_none() && artist.is_none() && approved.is_none() && comment.is_none() && features.len() == 0 && id <= 0 {
        return None;
    }
    Some(
        GatewaySceneryInstallPayload {
            scenery_id: id,
            icao,
            airport_name: name,
            status,
            artist,
            approved_date: approved,
            comment,
            features,
            master_zip_blob: blob,
        },
    )
}

/// The airport entries of a directory reply: the reply itself when it is
/// a list, else its first list under `airports`, `Airports`, `items`,
/// `results` or `data`; each entry that summarises.
pub open spec fn directory_items(payload: JsonValue) -> Seq<JsonValue> {
    match payload {
        JsonValue::Array(a) => a@,
        JsonValue::Object(o) => match pick_arr(o@, seq!["airports"@, "Airports"@, "items"@, "results"@, "data"@]) {
            Some(a) => a@,
            None => Seq::empty(),
        },
        _ => Seq::empty(),
    }
}

pub open spec fn directory_summaries(items: Seq<JsonValue>) -> Seq<SummaryView>
    decreases items.len(),
{
    if items.len() == 0 {
        Seq::empty()
    } else {
        let prev = directory_summaries(items.drop_last());
        match airport_summary(items.last(), Seq::empty()) {
            Some(v) => prev.push(v),
            None => prev,
        }
    }
}

pub open spec fn search_result_view(r: GatewayAirportSearchResult) -> SummaryView {
    (r.icao@, opt_str(r.airport_name), r.scenery_count, r.recommended_scenery_id, opt_str(r.recommended_artist), opt_str(r.recommended_accepted_at))
}

pub open spec fn search_result_views(v: Seq<GatewayAirportSearchResult>) -> Seq<SummaryView> {
    v.map_values(|r: GatewayAirportSearchResult| search_result_view(r))
}

pub fn extract_airport_directory_entries(payload: &JsonValue) -> (r: Vec<GatewayAirportSearchResult>)
    ensures
        search_result_views(r@) == directory_summaries(directory_items(*payload)),
        forall|i: int| 0 <= i < r@.len() ==> (#[trigger] r@[i]).ahead_of_current_xplane is None,
{
    let mut out: Vec<GatewayAirportSearchResult> = Vec::new();
    let list = match payload {
        JsonValue::Array(a) => a,
        JsonValue::Object(o) => {
            let keys = ["airports", "Airports", "items", "results", "data"];
            assert(str_views(keys@) =~= seq!["airports"@, "Airports"@, "items"@, "results"@, "data"@]);
            match pick_array(o, &keys) {
                Some(a) => a,
                None => {
                    assert(search_result_views(out@) =~= Seq::<SummaryView>::empty());
                    return out;
                },
            }
        },
        _ => {
            assert(search_result_views(out@) =~= Seq::<SummaryView>::empty());
            return out;
        },
    };
    let ghost items = directory_items(*payload);
    assert(items == list@);
    let mut i: usize = 0;
    while i < list.len()
        invariant
            0 <= i <= list.len(),
            items == list@,
            search_result_views(out@) == directory_summaries(items.subrange(0, i as int)),
            forall|j: int| 0 <= j < out@.len() ==> (#[trigger] out@[j]).ahead_of_current_xplane is None,
        decreases list.len() - i,
    {
        assert(items.subrange(0, i + 1).drop_last() =~= items.subrange(0, i as int));
        assert(items.subrange(0, i + 1).last() == list@[i as int]);
        proof {
            reveal_strlit("");
        }
        match parse_gateway_airport_summary(&list[i], "") {
            Some(s) => {
                let ghost b = search_result_views(out@);
                let res = crate::gateway::summary_to_search_result(s);
                out.push(res);
                assert(search_result_views(out@) =~= b.push(search_result_view(res)));
            },
            None => {},
        }
        i = i + 1;
    }
    assert(items.subrange(0, list@.len() as int) =~= items);
    out
}

/// Sorts directory entries by airport code; equal codes keep their order.
pub fn sort_airports_by_icao(v: Vec<GatewayAirportSearchResult>) -> (r: Vec<GatewayAirportSearchResult>)
    ensures
        search_result_views(r@) == sort_ordered(search_result_views(v@), |a: SummaryView, b: SummaryView| seq_less(a.0, b.0)),
{
    let ghost f = |a: SummaryView, b: SummaryView| seq_less(a.0, b.0);
    let ghost all = search_result_views(v@);
    let n = v.len();
    let mut rest = v;
    let mut out: Vec<GatewayAirportSearchResult> = Vec::new();
    assert(all.subrange(0, 0) =~= Seq::<SummaryView>::empty());
    assert(search_result_views(rest@) =~= all.subrange(0, n as int));
    assert(search_result_views(out@) =~= Seq::<SummaryView>::empty());
    while rest.len() > 0
        invariant
            rest.len() <= n,
            n == all.len(),
            f == (|a: SummaryView, b: SummaryView| seq_less(a.0, b.0)),
            search_result_views(rest@) == all.subrange((n - rest.len()) as int, n as int),
            search_result_views(out@) == sort_ordered(all.subrange(0, (n - rest.len()) as int), f),
        decreases rest.len(),
    {
        let ghost k = (n - rest.len()) as int;
        let ghost rv = search_result_views(rest@);
        let x = rest.remove(0);
        assert(search_result_view(x) == rv[0]);
        assert(all[k] == rv[0]);
        assert(search_result_views(rest@) =~= rv.drop_first());
        assert(all.subrange(k, n as int).drop_first() =~= all.subrange(k + 1, n as int));
        assert(all.subrange(0, k + 1).drop_last() =~= all.subrange(0, k));
        assert(all.subrange(0, k + 1).last() == all[k]);
        let ghost sv = search_result_views(out@);
        let xc = chars_of(x.icao.as_str());
        let mut p: usize = out.len();
        while p > 0 && chars_less(&xc, &chars_of(out[p - 1].icao.as_str()))
            invariant
                0 <= p <= out.len(),
                sv == search_result_views(out@),
                xc@ == x.icao@,
                forall|q: int| p <= q < sv.len() ==> seq_less(x.icao@, (#[trigger] sv[q]).0),
            decreases p,
        {
            assert(sv[p - 1] == search_result_view(out@[p - 1]));
            p = p - 1;
        }
        proof {
            if p > 0 {
                assert(sv[p - 1] == search_result_view(out@[p - 1]));
            }
            assert forall|q: int| p <= q < sv.len() implies f(search_result_view(x), #[trigger] sv[q]) by {}
            lemma_insert_ordered_at(sv, search_result_view(x), f, p as int);
        }
        out.insert(p, x);
        assert(search_result_views(out@) =~= sv.subrange(0, p as int).push(all[k]) + sv.subrange(p as int, sv.len() as int));
    }
    assert(all.subrange(0, n as int) =~= all);
    out
}

/// The version of a release name, as the comparison reads it.
pub open spec fn release_version_of(raw: Seq<char>) -> Option<ReleaseVersion> {
    match xplane_version_token(raw) {
        None => None,
        Some(t) => match semver_core(t) {
            Some(v) => Some(ReleaseVersion { major: v.0, minor: v.1, patch: v.2 }),
            None => None,
        },
    }
}

/// A release entry as plain values: name, date, version.
pub type ReleaseView = (Seq<char>, Seq<char>, ReleaseVersion);

pub open spec fn release_view(r: GatewayReleaseInfo) -> ReleaseView {
    (r.version@, r.date@, r.parsed_version)
}

pub open spec fn release_views(v: Seq<GatewayReleaseInfo>) -> Seq<ReleaseView> {
    v.map_values(|r: GatewayReleaseInfo| release_view(r))
}

/// A release entry: an object with a name and a date, whose name reads as
/// a version.
pub open spec fn release_entry(v: JsonValue) -> Option<ReleaseView> {
    match v {
        JsonValue::Object(o) => match pick_text(o@, seq!["Version"@, "version"@]) {
            Some(ver) => match pick_text(o@, seq!["Date"@, "date"@]) {
                Some(date) => match release_version_of(trim(ver)) {
                    Some(pv) => Some((trim(ver), trim(date), pv)),
                    None => None,
                },
                None => None,
            },
            None => None,
        },
        _ => None,
    }
}

pub open spec fn release_entries(items: Seq<JsonValue>) -> Seq<ReleaseView>
    decreases items.len(),
{
    if items.len() == 0 {
        Seq::empty()
    } else {
        let prev = release_entries(items.drop_last());
        match release_entry(items.last()) {
            Some(r) => prev.push(r),
            None => prev,
        }
    }
}

/// Release order: older versions first.
pub open spec fn release_before(a: ReleaseView, b: ReleaseView) -> bool {
    !release_version_le(b.2, a.2)
}

/// The releases of a directory reply (a list), sorted by version; equal
/// versions keep their order.
pub open spec fn release_directory(payload: JsonValue) -> Seq<ReleaseView> {
    match payload {
        JsonValue::Array(a) => sort_ordered(release_entries(a@), |x: ReleaseView, y: ReleaseView| release_before(x, y)),
        _ => Seq::empty(),
    }
}

fn version_le(a: ReleaseVersion, b: ReleaseVersion) -> (r: bool)
    ensures
        r == release_version_le(a, b),
{
    a.major < b.major || (a.major == b.major && a.minor < b.minor) || (a.major == b.major && a.minor == b.minor && a.patch <= b.patch)
}

pub fn parse_gateway_release_directory(payload: &JsonValue) -> (r: Vec<GatewayReleaseInfo>)
    ensures
        release_views(r@) == release_directory(*payload),
{
    let list = match payload {
        JsonValue::Array(a) => a,
        _ => {
            let out: Vec<GatewayReleaseInfo> = Vec::new();
            assert(release_views(out@) =~= Seq::<ReleaseView>::empty());
            return out;
        },
    };
    let vk = ["Version", "version"];
    let dk = ["Date", "date"];
    assert(str_views(vk@) =~= seq!["Version"@, "version"@]);
    assert(str_views(dk@) =~= seq!["Date"@, "date"@]);
    let mut found: Vec<GatewayReleaseInfo> = Vec::new();
    let mut i: usize = 0;
    while i < list.len()
        invariant
            0 <= i <= list.len(),
            str_views(vk@) == seq!["Version"@, "version"@],
            str_views(dk@) == seq!["Date"@, "date"@],
            release_views(found@) == release_entries(list@.subrange(0, i as int)),
        decreases list.len() - i,
    {
        assert(list@.subrange(0, i + 1).drop_last() =~= list@.subrange(0, i as int));
        assert(list@.subrange(0, i + 1).last() == list@[i as int]);
        match &list[i] {
            JsonValue::Object(o) => match pick_string(o, &vk) {
                Some(ver) => match pick_string(o, &dk) {
                    Some(date) => {
                        let v = string_of(&trim_vec(&chars_of(ver.as_str())));
                        let d = string_of(&trim_vec(&chars_of(date.as_str())));
                        match parse_xplane_version_for_compare(v.as_str()) {
                            Some(pv) => {
                                let ghost b = release_views(found@);
                                let info = GatewayReleaseInfo { version: v, date: d, parsed_version: pv };
                                found.push(info);
                                assert(release_views(found@) =~= b.push(release_view(info)));
                            },
                            None => {},
                        }
                    },
                    None => {},
                },
                None => {},
            },
            _ => {},
        }
        i = i + 1;
    }
    assert(list@.subrange(0, list@.len() as int) =~= list@);
    let ghost f = |x: ReleaseView, y: ReleaseView| release_before(x, y);
    let ghost all = release_views(found@);
    let n = found.len();
    let mut rest = found;
    let mut out: Vec<GatewayReleaseInfo> = Vec::new();
    assert(all.subrange(0, 0) =~= Seq::<ReleaseView>::empty());
    assert(release_views(rest@) =~= all.subrange(0, n as int));
    assert(release_views(out@) =~= Seq::<ReleaseView>::empty());
    while rest.len() > 0
        invariant
            rest.len() <= n,
            n == all.len(),
            f == (|x: ReleaseView, y: ReleaseView| release_before(x, y)),
            release_views(rest@) == all.subrange((n - rest.len()) as int, n as int),
            release_views(out@) == sort_ordered(all.subrange(0, (n - rest.len()) as int), f),
        decreases rest.len(),
    {
        let ghost k = (n - rest.len()) as int;
        let ghost rv = release_views(rest@);
        let x = rest.remove(0);
        assert(release_view(x) == rv[0]);
        assert(all[k] == rv[0]);
        assert(release_views(rest@) =~= rv.drop_first());
        assert(all.subrange(k, n as int).drop_first() =~= all.subrange(k + 1, n as int));
        assert(all.subrange(0, k + 1).drop_last() =~= all.subrange(0, k));
        assert(all.subrange(0, k + 1).last() == all[k]);
        let ghost sv = release_views(out@);
        let mut p: usize = out.len();
        while p > 0 && !version_le(out[p - 1].parsed_version, x.parsed_version)
            invariant
                0 <= p <= out.len(),
                sv == release_views(out@),
                forall|q: int| p <= q < sv.len() ==> release_before(release_view(x), #[trigger] sv[q]),
            decreases p,
        {
            assert(sv[p - 1] == release_view(out@[p - 1]));
            p = p - 1;
        }
        proof {
            if p > 0 {
                assert(sv[p - 1] == release_view(out@[p - 1]));
            }
            assert forall|q: int| p <= q < sv.len() implies f(release_view(x), #[trigger] sv[q]) by {}
            lemma_insert_ordered_at(sv, release_view(x), f, p as int);
        }
        out.insert(p, x);
        assert(release_views(out@) =~= sv.subrange(0, p as int).push(all[k]) + sv.subrange(p as int, sv.len() as int));
    }
    assert(all.subrange(0, n as int) =~= all);
    out
}

/// Whether a value is the integer `id`.
pub open spec fn is_number_id(v: JsonValue, id: i64) -> bool {
    match v {
        JsonValue::Number(n) => n.exact == Some(id),
        _ => false,
    }
}

/// The submissions a release ships: the positive integer ids listed under
/// `SceneryPacks` or `sceneryPacks`.
pub open spec fn release_pack_ids(payload: JsonValue) -> Set<i64> {
    match payload {
        JsonValue::Object(o) => match pick_arr(o@, seq!["SceneryPacks"@, "sceneryPacks"@]) {
            Some(a) => Set::new(
                |id: i64|
                    id > 0 && exists|i: int|
                        0 <= i < a@.len() && is_number_id(#[trigger] a@[i], id),
            ),
            None => Set::empty(),
        },
        _ => Set::empty(),
    }
}

pub fn parse_release_scenery_set(payload: &JsonValue) -> (r: HashSet<i64>)
    ensures
        r@ == release_pack_ids(*payload),
{
    let mut set: HashSet<i64> = HashSet::new();
    let root = match payload {
        JsonValue::Object(o) => o,
        _ => {
            assert(set@ =~= Set::<i64>::empty());
            return set;
        },
    };
    let keys = ["SceneryPacks", "sceneryPacks"];
    assert(str_views(keys@) =~= seq!["SceneryPacks"@, "sceneryPacks"@]);
    let list = match pick_array(root, &keys) {
        Some(a) => a,
        None => {
            assert(set@ =~= Set::<i64>::empty());
            return set;
        },
    };
    let mut i: usize = 0;
    while i < list.len()
        invariant
            0 <= i <= list.len(),
            set@ == Set::new(
                |id: i64|
                    id > 0 && exists|j: int|
                        0 <= j < i && is_number_id(#[trigger] list@[j], id),
            ),
        decreases list.len() - i,
    {
        let ghost before = set@;
        match &list[i] {
            JsonValue::Number(n) => match n.exact {
                Some(id) => {
                    if id > 0 {
                        set.insert(id);
                    }
                },
                None => {},
            },
            _ => {},
        }
        assert(set@ =~= Set::new(
            |id: i64|
                id > 0 && exists|j: int|
                    0 <= j < i + 1 && is_number_id(#[trigger] list@[j], id),
        ));
        i = i + 1;
    }
    assert(set@ =~= release_pack_ids(*payload));
    set
}

} // verus!
