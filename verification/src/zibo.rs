//! Zibo 737 updates: recognising the aircraft, reading its local version,
//! reading the release feed and planning a patch or a clean install.

use vstd::prelude::*;
use crate::num::{dec, dec2, dec2_vec, dec_in_range, dec_u32, dec_vec};
use crate::text::{
    eq_chars, eq_ignore_ascii_case, eq_ignore_ascii_case_exec, find, find_after, find_exec,
    lemma_find_after, occurs_at, contains, contains_exec,
    find_from, replace_all, replace_vec, ascii_lower_seq, ascii_lower_vec, chars_of, eq_str, lines, lines_of, push_all, seqs, slice_vec,
    split_char, split_pieces, string_of, trim, trim_vec,
};

verus! {

/// A `major.minor.patch` version.
#[derive(Debug, Clone, Copy, PartialEq, Eq, Structural, PartialOrd, Ord)]
pub struct VersionTriple {
    pub major: u32,
    pub minor: u32,
    pub patch: u32,
}

/// Strict order of versions: by major, then minor, then patch.
pub open spec fn version_lt(a: VersionTriple, b: VersionTriple) -> bool {
    ||| a.major < b.major
    ||| a.major == b.major && a.minor < b.minor
    ||| a.major == b.major && a.minor == b.minor && a.patch < b.patch
}

/// `a < b`, computed.
pub fn version_less(a: VersionTriple, b: VersionTriple) -> (r: bool)
    ensures
        r == version_lt(a, b),
{
    a.major < b.major || (a.major == b.major && a.minor < b.minor) || (a.major == b.major
        && a.minor == b.minor && a.patch < b.patch)
}

/// How `display_string` renders a version: `major.MM.PP`.
pub open spec fn version_text(v: VersionTriple) -> Seq<char> {
    dec(v.major as nat) + seq!['.'] + dec2(v.minor as nat) + seq!['.'] + dec2(v.patch as nat)
}

impl VersionTriple {
    pub fn new(major: u32, minor: u32, patch: u32) -> (r: Self)
        ensures
            r == (VersionTriple { major, minor, patch }),
    {
        VersionTriple { major, minor, patch }
    }

    pub fn major_minor_matches(self, other: Self) -> (r: bool)
        ensures
            r == (self.major == other.major && self.minor == other.minor),
    {
        self.major == other.major && self.minor == other.minor
    }

    /// `format!("{}.{:02}.{:02}", major, minor, patch)`.
    pub fn display_string(self) -> (r: String)
        ensures
            r@ == version_text(self),
    {
        let mut v = dec_vec(self.major as u64);
        v.push('.');
        let m = dec2_vec(self.minor as u64);
        push_all(&mut v, &m);
        v.push('.');
        let p = dec2_vec(self.patch as u64);
        push_all(&mut v, &p);
        string_of(&v)
    }
}

/// A release named in the feed: its version and the archive title.
#[derive(Debug, Clone)]
pub struct ZiboRelease {
    pub version: VersionTriple,
    pub title: String,
}

impl View for ZiboRelease {
    type V = (VersionTriple, Seq<char>);

    open spec fn view(&self) -> (VersionTriple, Seq<char>) {
        (self.version, self.title@)
    }
}

impl ZiboRelease {
    pub fn version_string(&self) -> (r: String)
        ensures
            r@ == version_text(self.version),
    {
        self.version.display_string()
    }
}

fn clone_release(r: &ZiboRelease) -> (c: ZiboRelease)
    ensures
        c@ == r@,
{
    ZiboRelease { version: r.version, title: r.title.clone() }
}

/// What the local `version.txt` of the aircraft says.
#[derive(Debug, Clone)]
pub enum LocalVersionState {
    Parsed(VersionTriple),
    Missing,
    Invalid(String),
}

#[derive(Debug, Clone, Copy, PartialEq, Eq, Structural)]
pub enum ZiboInstallMode {
    Patch,
    MajorClean,
}

impl ZiboInstallMode {
    pub fn as_plan_value(&self) -> (r: &'static str)
        ensures
            *self == ZiboInstallMode::Patch ==> r@ == "patch"@,
            *self == ZiboInstallMode::MajorClean ==> r@ == "major-clean"@,
    {
        match self {
            ZiboInstallMode::Patch => "patch",
            ZiboInstallMode::MajorClean => "major-clean",
        }
    }
}

#[derive(Debug, Clone, Copy, PartialEq, Eq, Structural)]
pub enum ZiboManualDownloadReason {
    DriveLimit,
    ReleasePage,
}

impl ZiboManualDownloadReason {
    pub fn as_plan_value(&self) -> (r: &'static str)
        ensures
            *self == ZiboManualDownloadReason::DriveLimit ==> r@ == "drive-limit"@,
            *self == ZiboManualDownloadReason::ReleasePage ==> r@ == "release-page"@,
    {
        match self {
            ZiboManualDownloadReason::DriveLimit => "drive-limit",
            ZiboManualDownloadReason::ReleasePage => "release-page",
        }
    }
}

/// The update to carry out: one release, and for a clean install possibly a
/// patch to apply after it.
#[derive(Debug, Clone)]
pub struct PlannedZiboUpdate {
    pub install_mode: ZiboInstallMode,
    pub primary_release: ZiboRelease,
    pub follow_up_patch: Option<ZiboRelease>,
}

/// Lower-cased, trimmed names of the aircraft files of the Zibo mod.
pub open spec fn is_zibo_acf_name(n: Seq<char>) -> bool {
    n == "b738.acf"@ || n == "b738_4k.acf"@ || n == "b738.xfma"@ || n == "b738_4k.xfma"@
}

/// Folders of the default Laminar 737, which share the file names.
pub open spec fn is_default_737_folder(n: Seq<char>) -> bool {
    n == "boeing 737-800"@ || n == "boeing b737-800"@
}

/// Whether an aircraft file inside a folder is the Zibo mod (and not the
/// default 737 that uses the same file names).
pub fn is_zibo_aircraft(folder_name: &str, acf_file: &str) -> (r: bool)
    ensures
        r == (is_zibo_acf_name(ascii_lower_seq(trim(acf_file@))) && !is_default_737_folder(
            ascii_lower_seq(trim(folder_name@)),
        )),
{
    let acf = chars_of(acf_file);
    let acf_t = trim_vec(&acf);
    let acf_name = ascii_lower_vec(&acf_t);
    let matches_file = eq_str(&acf_name, "b738.acf") || eq_str(&acf_name, "b738_4k.acf")
        || eq_str(&acf_name, "b738.xfma") || eq_str(&acf_name, "b738_4k.xfma");
    if !matches_file {
        return false;
    }
    let folder = chars_of(folder_name);
    let folder_t = trim_vec(&folder);
    let folder_l = ascii_lower_vec(&folder_t);
    !(eq_str(&folder_l, "boeing 737-800") || eq_str(&folder_l, "boeing b737-800"))
}

/// Whether a folder holds the Zibo mod, judged by the names of the files
/// in it (`file_names`, the plain files of the folder; none when the folder
/// is not a directory).
pub fn is_zibo_target_listing(folder_name: &str, file_names: &Vec<String>) -> (r: bool)
    ensures
        r == exists|i: int|
            0 <= i < file_names@.len() && is_zibo_acf_name(ascii_lower_seq(trim((#[trigger] file_names@[i])@)))
                && !is_default_737_folder(ascii_lower_seq(trim(folder_name@))),
{
    let mut i: usize = 0;
    while i < file_names.len()
        invariant
            0 <= i <= file_names.len(),
            forall|q: int|
                0 <= q < i ==> !(is_zibo_acf_name(ascii_lower_seq(trim((#[trigger] file_names@[q])@)))
                    && !is_default_737_folder(ascii_lower_seq(trim(folder_name@)))),
        decreases file_names.len() - i,
    {
        if is_zibo_aircraft(folder_name, file_names[i].as_str()) {
            return true;
        }
        i = i + 1;
    }
    false
}

/// The version that `^\s*(\d+)\.(\d+)\.(\d+)\s*$` with `u32` parts reads
/// from the trimmed text.
pub open spec fn local_version_spec(value: Seq<char>) -> Option<VersionTriple> {
    let parts = split_pieces(trim(value), '.');
    if parts.len() == 3 {
        match (
            dec_in_range(parts[0], u32::MAX as nat),
            dec_in_range(parts[1], u32::MAX as nat),
            dec_in_range(parts[2], u32::MAX as nat),
        ) {
            (Some(a), Some(b), Some(c)) => Some(
                VersionTriple { major: a as u32, minor: b as u32, patch: c as u32 },
            ),
            _ => None,
        }
    } else {
        None
    }
}

/// Reads a strict `A.B.C` version.
pub fn parse_local_version(value: &str) -> (r: Option<VersionTriple>)
    ensures
        r == local_version_spec(value@),
{
    let v = chars_of(value);
    let t = trim_vec(&v);
    let parts = split_char(&t, '.');
    if parts.len() != 3 {
        return None;
    }
    assert(seqs(parts@)[0] == parts[0]@);
    assert(seqs(parts@)[1] == parts[1]@);
    assert(seqs(parts@)[2] == parts[2]@);
    let a = dec_u32(&parts[0]);
    let b = dec_u32(&parts[1]);
    let c = dec_u32(&parts[2]);
    match (a, b, c) {
        (Some(a), Some(b), Some(c)) => Some(VersionTriple::new(a, b, c)),
        _ => None,
    }
}

/// An update is offered when the remote version is readable and either the
/// local one is not, or the remote one is newer.
pub fn should_offer_update(local_version: Option<&str>, remote_version: &str) -> (r: bool)
    ensures
        r == (match local_version_spec(remote_version@) {
            None => false,
            Some(remote) => match local_version {
                Some(l) => match local_version_spec(l@) {
                    Some(local) => version_lt(local, remote),
                    None => true,
                },
                None => true,
            },
        }),
{
    let remote = match parse_local_version(remote_version) {
        Some(v) => v,
        None => return false,
    };
    let local = match local_version {
        Some(l) => parse_local_version(l),
        None => None,
    };
    match local {
        Some(local) => version_less(local, remote),
        None => true,
    }
}

/// The version shown for a scan, from the text of `version.txt` when it
/// could be read: its first line, trimmed, if it is a valid version.
pub fn read_local_version_for_scan(version_file_text: Option<&str>) -> (r: Option<String>)
    ensures
        r matches Some(s) ==> version_file_text is Some,
        match version_file_text {
            None => r is None,
            Some(text) => match local_version_spec(first_line(text@)) {
                Some(v) => r matches Some(s) && s@ == version_text(v),
                None => r is None,
            },
        },
{
    match version_file_text {
        None => None,
        Some(text) => match local_version_state_of_text(text) {
            LocalVersionState::Parsed(v) => Some(v.display_string()),
            _ => None,
        },
    }
}

/// The first line of a text (empty when there is none).
pub open spec fn first_line(text: Seq<char>) -> Seq<char> {
    if lines(text).len() > 0 {
        lines(text)[0]
    } else {
        Seq::empty()
    }
}

/// The state of `version.txt` from its text: the trimmed first line must be
/// a valid version.
pub fn local_version_state_of_text(text: &str) -> (r: LocalVersionState)
    ensures
        match local_version_spec(first_line(text@)) {
            Some(v) => r == LocalVersionState::Parsed(v),
            None => r matches LocalVersionState::Invalid(m) && m@ == (if trim(first_line(text@)).len()
                == 0 {
                "version.txt is empty"@
            } else {
                "version.txt does not contain a valid A.B.C version"@
            }),
        },
{
    let t = chars_of(text);
    let ls = lines_of(&t);
    let first: Vec<char> = if ls.len() > 0 {
        assert(seqs(ls@)[0] == ls[0]@);
        slice_vec(&ls[0], 0, ls[0].len())
    } else {
        Vec::new()
    };
    assert(ls.len() > 0 ==> ls[0]@.subrange(0, ls[0]@.len() as int) =~= ls[0]@);
    assert(first@ == first_line(text@));
    let trimmed = trim_vec(&first);
    if trimmed.len() == 0 {
        proof {
            let parts = split_pieces(trim(first@), '.');
            assert(trim(first@).len() == 0);
            assert(parts =~= seq![Seq::<char>::empty()]);
        }
        return LocalVersionState::Invalid(string_of(&chars_of("version.txt is empty")));
    }
    let s = string_of(&first);
    match parse_local_version(s.as_str()) {
        Some(v) => LocalVersionState::Parsed(v),
        None => LocalVersionState::Invalid(
            string_of(&chars_of("version.txt does not contain a valid A.B.C version")),
        ),
    }
}

/// The release named by an archive title: the trimmed title ends in
/// `_<major>_<minor>_<patch>.zip`, where major and minor are decimal `u32`
/// numbers and the patch is one too, or `full` (patch 0); the suffix and
/// `full` in any ASCII case.
pub open spec fn release_entry_spec(title: Seq<char>) -> Option<(VersionTriple, Seq<char>)> {
    let t = trim(title);
    if t.len() >= 4 && eq_ignore_ascii_case(t.subrange(t.len() - 4, t.len() as int), ".zip"@) {
        let parts = split_pieces(t.subrange(0, t.len() - 4), '_');
        let k = parts.len();
        if k >= 4 {
            let patch = if eq_ignore_ascii_case(parts[k - 1], "full"@) {
                Some(0nat)
            } else {
                dec_in_range(parts[k - 1], u32::MAX as nat)
            };
            match (
                dec_in_range(parts[k - 3], u32::MAX as nat),
                dec_in_range(parts[k - 2], u32::MAX as nat),
                patch,
            ) {
                (Some(a), Some(b), Some(c)) => Some(
                    (VersionTriple { major: a as u32, minor: b as u32, patch: c as u32 }, t),
                ),
                _ => None,
            }
        } else {
            None
        }
    } else {
        None
    }
}

/// Reads a release from an archive title.
pub fn parse_release_entry(title: &str) -> (r: Option<ZiboRelease>)
    ensures
        match release_entry_spec(title@) {
            Some((v, t)) => r matches Some(rel) && rel.version == v && rel.title@ == t,
            None => r is None,
        },
{
    let chars = chars_of(title);
    let t = trim_vec(&chars);
    if t.len() < 4 {
        return None;
    }
    let suffix = slice_vec(&t, t.len() - 4, t.len());
    let zip = chars_of(".zip");
    if !eq_ignore_ascii_case_exec(&suffix, &zip) {
        return None;
    }
    let core = slice_vec(&t, 0, t.len() - 4);
    let parts = split_char(&core, '_');
    let k = parts.len();
    if k < 4 {
        return None;
    }
    assert(seqs(parts@)[k - 3] == parts[k - 3]@);
    assert(seqs(parts@)[k - 2] == parts[k - 2]@);
    assert(seqs(parts@)[k - 1] == parts[k - 1]@);
    let full = chars_of("full");
    let patch = if eq_ignore_ascii_case_exec(&parts[k - 1], &full) {
        Some(0u32)
    } else {
        dec_u32(&parts[k - 1])
    };
    let major = dec_u32(&parts[k - 3]);
    let minor = dec_u32(&parts[k - 2]);
    match (major, minor, patch) {
        (Some(a), Some(b), Some(c)) => Some(
            ZiboRelease { version: VersionTriple::new(a, b, c), title: string_of(&t) },
        ),
        _ => None,
    }
}

/// The entity decoding applied to feed text: `&lt;`, `&gt;`, `&quot;`,
/// `&apos;` and then `&amp;`, each replaced everywhere in turn.
pub open spec fn xml_entity_decode_spec(s: Seq<char>) -> Seq<char> {
    replace_all(
        replace_all(
            replace_all(replace_all(replace_all(s, "&lt;"@, "<"@), "&gt;"@, ">"@), "&quot;"@, "\""@),
            "&apos;"@,
            "'"@,
        ),
        "&amp;"@,
        "&"@,
    )
}

proof fn lemma_nonempty_literals()
    ensures
        "&lt;"@.len() > 0,
        "&gt;"@.len() > 0,
        "&quot;"@.len() > 0,
        "&apos;"@.len() > 0,
        "&amp;"@.len() > 0,
        "<item>"@.len() == 6,
        "</item>"@.len() == 7,
        "\\"@.len() > 0,
        "'"@.len() > 0,
{
    reveal_strlit("&lt;");
    reveal_strlit("&gt;");
    reveal_strlit("&quot;");
    reveal_strlit("&apos;");
    reveal_strlit("&amp;");
    reveal_strlit("<item>");
    reveal_strlit("</item>");
    reveal_strlit("\\");
    reveal_strlit("'");
}

pub fn xml_entity_decode(input: &[char]) -> (r: Vec<char>)
    ensures
        r@ == xml_entity_decode_spec(input@),
{
    proof {
        lemma_nonempty_literals();
    }
    let a = replace_vec(input, &chars_of("&lt;"), &chars_of("<"));
    let b = replace_vec(&a, &chars_of("&gt;"), &chars_of(">"));
    let c = replace_vec(&b, &chars_of("&quot;"), &chars_of("\""));
    let d = replace_vec(&c, &chars_of("&apos;"), &chars_of("'"));
    replace_vec(&d, &chars_of("&amp;"), &chars_of("&"))
}

/// The text of the first `<tag>` element: from after the first `<tag>` to
/// the first `</tag>` after it, trimmed and entity-decoded.
pub open spec fn xml_tag_spec(xml: Seq<char>, tag: Seq<char>) -> Option<Seq<char>> {
    let open = seq!['<'] + tag + seq!['>'];
    let close = seq!['<', '/'] + tag + seq!['>'];
    match find(xml, open) {
        Some(i) => {
            let rest = xml.subrange(i + open.len(), xml.len() as int);
            match find(rest, close) {
                Some(e) => Some(xml_entity_decode_spec(trim(rest.subrange(0, e)))),
                None => None,
            }
        },
        None => None,
    }
}

pub fn extract_xml_tag(xml: &[char], tag: &[char]) -> (r: Option<Vec<char>>)
    ensures
        match xml_tag_spec(xml@, tag@) {
            Some(v) => r matches Some(x) && x@ == v,
            None => r is None,
        },
{
    let mut open: Vec<char> = Vec::new();
    open.push('<');
    push_all(&mut open, tag);
    open.push('>');
    let mut close: Vec<char> = Vec::new();
    close.push('<');
    close.push('/');
    push_all(&mut close, tag);
    close.push('>');
    assert(open@ =~= seq!['<'] + tag@ + seq!['>']);
    assert(close@ =~= seq!['<', '/'] + tag@ + seq!['>']);
    proof {
        lemma_find_after(xml@, open@, 0);
    }
    let i = match find_exec(xml, &open) {
        Some(i) => i,
        None => return None,
    };
    assert(occurs_at(xml@, open@, i as int));
    assert(i + open@.len() <= xml@.len());
    let olen = open.len();
    let xlen = xml.len();
    assert(olen == open@.len() && xlen == xml@.len());
    let start = i + olen;
    let rest = slice_vec(xml, start, xml.len());
    proof {
        lemma_find_after(rest@, close@, 0);
    }
    let e = match find_exec(&rest, &close) {
        Some(e) => e,
        None => return None,
    };
    let body = slice_vec(&rest, 0, e);
    let t = trim_vec(&body);
    Some(xml_entity_decode(&t))
}

/// The bodies of the `<item>` elements of a feed, in order: each from after
/// an `<item>` to the first `</item>` after it; the next one is looked for
/// after that `</item>`.
pub open spec fn rss_items_from(xml: Seq<char>, pos: int) -> Seq<Seq<char>>
    decreases xml.len() - pos,
{
    if pos < 0 || pos > xml.len() {
        Seq::empty()
    } else {
        match find_after(xml, "<item>"@, pos) {
            Some(i) => match find_after(xml, "</item>"@, i + "<item>"@.len()) {
                Some(e) => if pos < e + "</item>"@.len() <= xml.len() {
                    seq![xml.subrange(i + "<item>"@.len(), e)] + rss_items_from(
                        xml,
                        e + "</item>"@.len(),
                    )
                } else {
                    Seq::empty()
                },
                None => Seq::empty(),
            },
            None => Seq::empty(),
        }
    }
}

pub fn rss_items(xml: &[char]) -> (r: Vec<Vec<char>>)
    ensures
        seqs(r@) == rss_items_from(xml@, 0),
{
    proof {
        lemma_nonempty_literals();
    }
    let open = chars_of("<item>");
    let close = chars_of("</item>");
    let mut items: Vec<Vec<char>> = Vec::new();
    let mut pos: usize = 0;
    loop
        invariant
            pos <= xml.len(),
            open@ == "<item>"@,
            close@ == "</item>"@,
            open@.len() == 6,
            close@.len() == 7,
            seqs(items@) + rss_items_from(xml@, pos as int) == rss_items_from(xml@, 0),
        decreases xml.len() - pos,
    {
        proof {
            lemma_find_after(xml@, open@, pos as int);
        }
        let i = match find_from(xml, &open, pos) {
            Some(i) => i,
            None => {
                assert(rss_items_from(xml@, pos as int) =~= Seq::<Seq<char>>::empty());
                assert(seqs(items@) + Seq::<Seq<char>>::empty() =~= seqs(items@));
                return items;
            },
        };
        let body_start = i + 6;
        proof {
            lemma_find_after(xml@, close@, body_start as int);
        }
        let e = match find_from(xml, &close, body_start) {
            Some(e) => e,
            None => {
                assert(rss_items_from(xml@, pos as int) =~= Seq::<Seq<char>>::empty());
                assert(seqs(items@) + Seq::<Seq<char>>::empty() =~= seqs(items@));
                return items;
            },
        };
        let body = slice_vec(xml, body_start, e);
        let ghost before = seqs(items@);
        items.push(body);
        assert(seqs(items@) =~= before.push(xml@.subrange(body_start as int, e as int)));
        assert(seqs(items@) + rss_items_from(xml@, e + 7) =~= before + rss_items_from(
            xml@,
            pos as int,
        ));
        pos = e + 7;
    }
}

/// Inserts a release after every release with a version not above it.
pub open spec fn insert_by_version(s: Seq<(VersionTriple, Seq<char>)>, x: (VersionTriple, Seq<char>)) -> Seq<
    (VersionTriple, Seq<char>),
>
    decreases s.len(),
{
    if s.len() == 0 || !version_lt(x.0, s.last().0) {
        s.push(x)
    } else {
        insert_by_version(s.drop_last(), x).push(s.last())
    }
}

/// Releases sorted by version, keeping the feed order among equal versions
/// (`sort_by_key` is stable).
pub open spec fn sort_by_version(s: Seq<(VersionTriple, Seq<char>)>) -> Seq<(VersionTriple, Seq<char>)>
    decreases s.len(),
{
    if s.len() == 0 {
        s
    } else {
        insert_by_version(sort_by_version(s.drop_last()), s.last())
    }
}

/// Drops every release whose title equals that of the release kept just
/// before it (`dedup_by` on titles).
pub open spec fn dedup_titles(s: Seq<(VersionTriple, Seq<char>)>) -> Seq<(VersionTriple, Seq<char>)>
    decreases s.len(),
{
    if s.len() == 0 {
        s
    } else {
        let d = dedup_titles(s.drop_last());
        if d.len() > 0 && d.last().1 == s.last().1 {
            d
        } else {
            d.push(s.last())
        }
    }
}

pub open spec fn release_views(v: Seq<ZiboRelease>) -> Seq<(VersionTriple, Seq<char>)> {
    v.map_values(|r: ZiboRelease| r@)
}

/// The releases named by the item titles, in feed order.
pub open spec fn feed_releases(items: Seq<Seq<char>>) -> Seq<(VersionTriple, Seq<char>)>
    decreases items.len(),
{
    if items.len() == 0 {
        Seq::empty()
    } else {
        let prev = feed_releases(items.drop_last());
        match xml_tag_spec(items.last(), "title"@) {
            Some(title) => match release_entry_spec(title) {
                Some(rel) => prev.push(rel),
                None => prev,
            },
            None => prev,
        }
    }
}

/// The release catalog of a feed: the releases of its items, sorted by
/// version and without repeated titles.
pub open spec fn release_catalog_spec(xml: Seq<char>) -> Seq<(VersionTriple, Seq<char>)> {
    dedup_titles(sort_by_version(feed_releases(rss_items_from(xml, 0))))
}

fn insert_release(out: &mut Vec<ZiboRelease>, x: ZiboRelease)
    ensures
        release_views(final(out)@) == insert_by_version(release_views(old(out)@), x@),
{
    let ghost s = release_views(out@);
    let mut pos = out.len();
    assert(s.subrange(0, pos as int) =~= s);
    assert(s.subrange(pos as int, s.len() as int) =~= Seq::<(VersionTriple, Seq<char>)>::empty());
    assert(insert_by_version(s, x@) =~= insert_by_version(s.subrange(0, pos as int), x@) + s.subrange(
        pos as int,
        s.len() as int,
    ));
    while pos > 0 && version_less(x.version, out[pos - 1].version)
        invariant
            pos <= out.len(),
            s == release_views(out@),
            insert_by_version(s, x@) == insert_by_version(s.subrange(0, pos as int), x@) + s.subrange(
                pos as int,
                s.len() as int,
            ),
        decreases pos,
    {
        let ghost p = s.subrange(0, pos as int);
        assert(p.drop_last() =~= s.subrange(0, pos - 1));
        assert(p.last() == s[pos - 1]);
        assert(s.subrange(pos - 1, s.len() as int) =~= seq![s[pos - 1]] + s.subrange(
            pos as int,
            s.len() as int,
        ));
        pos = pos - 1;
        assert(insert_by_version(s, x@) =~= insert_by_version(s.subrange(0, pos as int), x@)
            + s.subrange(pos as int, s.len() as int));
    }
    out.insert(pos, x);
    assert(insert_by_version(s.subrange(0, pos as int), x@) == s.subrange(0, pos as int).push(x@));
    assert(release_views(out@) =~= insert_by_version(s, x@));
}

/// Reads the release catalog from the text of the feed; an error when no
/// item names a usable release.
pub fn parse_release_catalog(xml: &str) -> (r: Result<Vec<ZiboRelease>, String>)
    ensures
        match r {
            Ok(v) => release_views(v@) == release_catalog_spec(xml@) && v@.len() > 0,
            Err(e) => release_catalog_spec(xml@).len() == 0 && e@
                == "No usable Zibo release was found in the RSS feed"@,
        },
{
    let text = chars_of(xml);
    let items = rss_items(&text);
    let ghost all = seqs(items@);
    let tag = chars_of("title");
    let mut found: Vec<ZiboRelease> = Vec::new();
    let mut k: usize = 0;
    while k < items.len()
        invariant
            0 <= k <= items.len(),
            all == seqs(items@),
            tag@ == "title"@,
            release_views(found@) == feed_releases(all.subrange(0, k as int)),
        decreases items.len() - k,
    {
        assert(all.subrange(0, k + 1).drop_last() =~= all.subrange(0, k as int));
        assert(all.subrange(0, k + 1).last() == items@[k as int]@);
        match extract_xml_tag(&items[k], &tag) {
            Some(title) => {
                let ts = string_of(&title);
                match parse_release_entry(ts.as_str()) {
                    Some(rel) => {
                        let ghost before = release_views(found@);
                        found.push(rel);
                        assert(release_views(found@) =~= before.push(rel@));
                    },
                    None => {},
                }
            },
            None => {},
        }
        k = k + 1;
    }
    assert(all.subrange(0, items@.len() as int) =~= all);
    let ghost fr = release_views(found@);
    let mut sorted: Vec<ZiboRelease> = Vec::new();
    let mut j: usize = 0;
    while j < found.len()
        invariant
            0 <= j <= found.len(),
            fr == release_views(found@),
            release_views(sorted@) == sort_by_version(fr.subrange(0, j as int)),
        decreases found.len() - j,
    {
        assert(fr.subrange(0, j + 1).drop_last() =~= fr.subrange(0, j as int));
        assert(fr.subrange(0, j + 1).last() == found@[j as int]@);
        let c = clone_release(&found[j]);
        insert_release(&mut sorted, c);
        j = j + 1;
    }
    assert(fr.subrange(0, found@.len() as int) =~= fr);
    let ghost sr = release_views(sorted@);
    let mut out: Vec<ZiboRelease> = Vec::new();
    let mut m: usize = 0;
    while m < sorted.len()
        invariant
            0 <= m <= sorted.len(),
            sr == release_views(sorted@),
            release_views(out@) == dedup_titles(sr.subrange(0, m as int)),
            m > 0 ==> out@.len() > 0,
        decreases sorted.len() - m,
    {
        assert(sr.subrange(0, m + 1).drop_last() =~= sr.subrange(0, m as int));
        assert(sr.subrange(0, m + 1).last() == sorted@[m as int]@);
        let keep = if out.len() == 0 {
            true
        } else {
            let last = out.len() - 1;
            assert(release_views(out@).last() == out@[last as int]@);
            let a = chars_of(out[last].title.as_str());
            let b = chars_of(sorted[m].title.as_str());
            !eq_chars(&a, &b)
        };
        if keep {
            let ghost before = release_views(out@);
            out.push(clone_release(&sorted[m]));
            assert(release_views(out@) =~= before.push(sorted@[m as int]@));
        }
        m = m + 1;
    }
    assert(sr.subrange(0, sorted@.len() as int) =~= sr);
    if out.len() == 0 {
        return Err(string_of(&chars_of("No usable Zibo release was found in the RSS feed")));
    }
    Ok(out)
}

/// Which releases a search for the newest one looks at.
#[derive(Debug, Clone, Copy, PartialEq, Eq, Structural)]
pub enum ReleaseFilter {
    Any,
    SameBranch,
    FullOfBranch,
}

/// Whether a release version passes the filter for the branch of `branch`.
pub open spec fn release_kept(v: VersionTriple, branch: VersionTriple, filter: ReleaseFilter) -> bool {
    match filter {
        ReleaseFilter::Any => true,
        ReleaseFilter::SameBranch => v.major == branch.major && v.minor == branch.minor,
        ReleaseFilter::FullOfBranch => v.major == branch.major && v.minor == branch.minor && v.patch
            == 0,
    }
}

/// The index of the newest release that passes the filter; of several with
/// that version, the last one (as `max_by_key` picks).
pub open spec fn newest_index(
    s: Seq<(VersionTriple, Seq<char>)>,
    branch: VersionTriple,
    filter: ReleaseFilter,
) -> Option<int>
    decreases s.len(),
{
    if s.len() == 0 {
        None
    } else {
        let prev = newest_index(s.drop_last(), branch, filter);
        if release_kept(s.last().0, branch, filter) && match prev {
            Some(p) => !version_lt(s.last().0, s[p].0),
            None => true,
        } {
            Some(s.len() - 1)
        } else {
            prev
        }
    }
}

pub proof fn lemma_newest_index(
    s: Seq<(VersionTriple, Seq<char>)>,
    branch: VersionTriple,
    filter: ReleaseFilter,
)
    ensures
        newest_index(s, branch, filter) matches Some(p) ==> 0 <= p < s.len() && release_kept(
            s[p].0,
            branch,
            filter,
        ) && forall|j: int|
            0 <= j < s.len() && release_kept(#[trigger] s[j].0, branch, filter) ==> !version_lt(
                s[p].0,
                s[j].0,
            ),
        newest_index(s, branch, filter) is None ==> forall|j: int|
            0 <= j < s.len() ==> !release_kept(#[trigger] s[j].0, branch, filter),
    decreases s.len(),
{
    if s.len() > 0 {
        let d = s.drop_last();
        let n = s.len() - 1;
        lemma_newest_index(d, branch, filter);
        assert forall|j: int| 0 <= j < d.len() implies #[trigger] d[j] == s[j] by {}
        let prev = newest_index(d, branch, filter);
        match newest_index(s, branch, filter) {
            Some(p) => {
                assert forall|j: int|
                    0 <= j < s.len() && release_kept(#[trigger] s[j].0, branch, filter) implies !version_lt(
                    s[p].0,
                    s[j].0,
                ) by {
                    if j < n {
                        assert(release_kept(d[j].0, branch, filter));
                        assert(prev is Some);
                        let q = prev.unwrap();
                        assert(!version_lt(d[q].0, d[j].0));
                    }
                }
            },
            None => {
                assert forall|j: int| 0 <= j < s.len() implies !release_kept(
                    #[trigger] s[j].0,
                    branch,
                    filter,
                ) by {
                    if j < n {
                        assert(!release_kept(d[j].0, branch, filter));
                    }
                }
            },
        }
    }
}

fn newest_release_index(releases: &[ZiboRelease], branch: VersionTriple, filter: ReleaseFilter) -> (r:
    Option<usize>)
    ensures
        match newest_index(release_views(releases@), branch, filter) {
            Some(p) => r == Some(p as usize) && 0 <= p < releases@.len(),
            None => r is None,
        },
{
    let ghost s = release_views(releases@);
    let mut best: Option<usize> = None;
    let mut k: usize = 0;
    while k < releases.len()
        invariant
            0 <= k <= releases.len(),
            s == release_views(releases@),
            match newest_index(s.subrange(0, k as int), branch, filter) {
                Some(p) => best == Some(p as usize) && 0 <= p < k,
                None => best is None,
            },
        decreases releases.len() - k,
    {
        let ghost sub = s.subrange(0, k + 1);
        assert(sub.drop_last() =~= s.subrange(0, k as int));
        assert(sub.last() == releases@[k as int]@);
        let v = releases[k].version;
        let kept = match filter {
            ReleaseFilter::Any => true,
            ReleaseFilter::SameBranch => v.major == branch.major && v.minor == branch.minor,
            ReleaseFilter::FullOfBranch => v.major == branch.major && v.minor == branch.minor
                && v.patch == 0,
        };
        if kept {
            match best {
                Some(p) => {
                    assert(sub[p as int] == releases@[p as int]@);
                    if !version_less(v, releases[p].version) {
                        best = Some(k);
                    }
                },
                None => {
                    best = Some(k);
                },
            }
        }
        k = k + 1;
    }
    assert(s.subrange(0, releases@.len() as int) =~= s);
    best
}

/// The newest release of the catalog; an error for an empty catalog.
pub fn latest_release_from_catalog(releases: &[ZiboRelease]) -> (r: Result<ZiboRelease, String>)
    ensures
        match newest_index(release_views(releases@), VersionTriple { major: 0, minor: 0, patch: 0 }, ReleaseFilter::Any) {
            Some(p) => r matches Ok(rel) && rel@ == releases@[p]@,
            None => r matches Err(e) && e@ == "No usable Zibo release was found in the RSS feed"@,
        },
        r is Err <==> releases@.len() == 0,
{
    let any = VersionTriple::new(0, 0, 0);
    proof {
        lemma_newest_index(release_views(releases@), any, ReleaseFilter::Any);
        if releases@.len() > 0 {
            assert(release_kept(release_views(releases@)[0].0, any, ReleaseFilter::Any));
        }
    }
    match newest_release_index(releases, any, ReleaseFilter::Any) {
        Some(p) => Ok(clone_release(&releases[p])),
        None => Err(string_of(&chars_of("No usable Zibo release was found in the RSS feed"))),
    }
}

/// The newest release of the branch (same major and minor) of `version`.
pub fn latest_release_for_branch(releases: &[ZiboRelease], version: VersionTriple) -> (r: Option<
    ZiboRelease,
>)
    ensures
        match newest_index(release_views(releases@), version, ReleaseFilter::SameBranch) {
            Some(p) => r matches Some(rel) && rel@ == releases@[p]@,
            None => r is None,
        },
{
    match newest_release_index(releases, version, ReleaseFilter::SameBranch) {
        Some(p) => Some(clone_release(&releases[p])),
        None => None,
    }
}

/// The newest full package (patch 0) of the branch of `version`.
pub fn latest_full_release_for_branch(releases: &[ZiboRelease], version: VersionTriple) -> (r:
    Option<ZiboRelease>)
    ensures
        match newest_index(release_views(releases@), version, ReleaseFilter::FullOfBranch) {
            Some(p) => r matches Some(rel) && rel@ == releases@[p]@,
            None => r is None,
        },
{
    match newest_release_index(releases, version, ReleaseFilter::FullOfBranch) {
        Some(p) => Some(clone_release(&releases[p])),
        None => None,
    }
}

impl View for PlannedZiboUpdate {
    type V = (ZiboInstallMode, (VersionTriple, Seq<char>), Option<(VersionTriple, Seq<char>)>);

    open spec fn view(&self) -> Self::V {
        (
            self.install_mode,
            self.primary_release@,
            match self.follow_up_patch {
                Some(p) => Some(p@),
                None => None,
            },
        )
    }
}

/// The update plan for a local state and a catalog: nothing when the local
/// version is not older than the newest release; a patch to the newest
/// release within the same branch; otherwise a clean install of the newest
/// full package of the newest branch, followed by the newest release of
/// that branch when it is newer than the full package.
pub open spec fn plan_spec(local: LocalVersionState, s: Seq<(VersionTriple, Seq<char>)>) -> Result<
    Option<(ZiboInstallMode, (VersionTriple, Seq<char>), Option<(VersionTriple, Seq<char>)>)>,
    Seq<char>,
> {
    let zero = VersionTriple { major: 0, minor: 0, patch: 0 };
    match newest_index(s, zero, ReleaseFilter::Any) {
        None => Err("No usable Zibo release was found in the RSS feed"@),
        Some(li) => {
            let latest = s[li];
            if local matches LocalVersionState::Parsed(l) && !version_lt(l, latest.0) {
                Ok(None)
            } else if local matches LocalVersionState::Parsed(l) && latest.0.major == l.major
                && latest.0.minor == l.minor {
                Ok(Some((ZiboInstallMode::Patch, latest, None)))
            } else {
                match newest_index(s, latest.0, ReleaseFilter::FullOfBranch) {
                    None => Err(
                        "Latest Zibo branch "@ + version_text(latest.0)
                            + " does not expose a full package in the RSS feed"@,
                    ),
                    Some(fi) => {
                        let full = s[fi];
                        let follow = match newest_index(s, latest.0, ReleaseFilter::SameBranch) {
                            Some(bi) => if version_lt(full.0, s[bi].0) {
                                Some(s[bi])
                            } else {
                                None
                            },
                            None => None,
                        };
                        Ok(Some((ZiboInstallMode::MajorClean, full, follow)))
                    },
                }
            }
        },
    }
}

/// Plans the update of a Zibo installation from the release catalog.
pub fn plan_zibo_update(local_state: &LocalVersionState, releases: &[ZiboRelease]) -> (r: Result<
    Option<PlannedZiboUpdate>,
    String,
>)
    ensures
        match plan_spec(*local_state, release_views(releases@)) {
            Ok(None) => r matches Ok(None),
            Ok(Some(p)) => r matches Ok(Some(u)) && u@ == p,
            Err(e) => r matches Err(m) && m@ == e,
        },
{
    let ghost s = release_views(releases@);
    let ghost zero = VersionTriple { major: 0, minor: 0, patch: 0 };
    let latest = match latest_release_from_catalog(releases) {
        Ok(l) => l,
        Err(e) => return Err(e),
    };
    proof {
        lemma_newest_index(s, zero, ReleaseFilter::Any);
        let li = newest_index(s, zero, ReleaseFilter::Any).unwrap();
        assert(s[li] == releases@[li]@);
        assert(latest@ == s[li]);
        lemma_newest_index(s, latest.version, ReleaseFilter::FullOfBranch);
        lemma_newest_index(s, latest.version, ReleaseFilter::SameBranch);
        match newest_index(s, latest.version, ReleaseFilter::FullOfBranch) {
            Some(fi) => {
                assert(s[fi] == releases@[fi]@);
            },
            None => {},
        }
        match newest_index(s, latest.version, ReleaseFilter::SameBranch) {
            Some(bi) => {
                assert(s[bi] == releases@[bi]@);
            },
            None => {},
        }
    }
    match local_state {
        LocalVersionState::Parsed(local) => {
            if !version_less(*local, latest.version) {
                return Ok(None);
            }
            if latest.version.major_minor_matches(*local) {
                return Ok(
                    Some(
                        PlannedZiboUpdate {
                            install_mode: ZiboInstallMode::Patch,
                            primary_release: latest,
                            follow_up_patch: None,
                        },
                    ),
                );
            }
        },
        _ => {},
    }
    let full = match latest_full_release_for_branch(releases, latest.version) {
        Some(f) => f,
        None => {
            let mut msg = chars_of("Latest Zibo branch ");
            let v = chars_of(latest.version_string().as_str());
            push_all(&mut msg, &v);
            push_all(&mut msg, &chars_of(" does not expose a full package in the RSS feed"));
            return Err(string_of(&msg));
        },
    };
    let follow_up_patch = match latest_release_for_branch(releases, latest.version) {
        Some(p) => if version_less(full.version, p.version) {
            Some(p)
        } else {
            None
        },
        None => None,
    };
    Ok(
        Some(
            PlannedZiboUpdate {
                install_mode: ZiboInstallMode::MajorClean,
                primary_release: full,
                follow_up_patch,
            },
        ),
    )
}

/// The releases to download for a plan, in order.
pub fn releases_for_plan(update: &PlannedZiboUpdate) -> (r: Vec<ZiboRelease>)
    ensures
        release_views(r@) == (match update.follow_up_patch {
            Some(p) => seq![update.primary_release@, p@],
            None => seq![update.primary_release@],
        }),
{
    let mut releases: Vec<ZiboRelease> = Vec::new();
    releases.push(clone_release(&update.primary_release));
    match &update.follow_up_patch {
        Some(p) => releases.push(clone_release(p)),
        None => {},
    }
    assert(release_views(releases@) =~= (match update.follow_up_patch {
        Some(p) => seq![update.primary_release@, p@],
        None => seq![update.primary_release@],
    }));
    releases
}

/// The local version as shown in a plan, when it was read.
pub fn local_version_text(local_state: &LocalVersionState) -> (r: Option<String>)
    ensures
        match *local_state {
            LocalVersionState::Parsed(v) => r matches Some(s) && s@ == version_text(v),
            _ => r is None,
        },
{
    match local_state {
        LocalVersionState::Parsed(version) => Some(version.display_string()),
        _ => None,
    }
}

/// A shared folder that holds the release archives.
#[derive(Debug, Clone, Copy)]
pub struct DriveSource {
    pub label: &'static str,
    pub folder_id: &'static str,
    pub folder_url: &'static str,
}

/// The first (`a`) or second folder that publishes the releases.
pub open spec fn is_drive_source(d: DriveSource, first: bool) -> bool {
    if first {
        &&& d.label@ == "drive-source-a"@
        &&& d.folder_id@ == "1qo88h_CCQRRrAMhG3EabHSwa4Lzw-WHL"@
        &&& d.folder_url@ == "https://drive.google.com/drive/folders/1qo88h_CCQRRrAMhG3EabHSwa4Lzw-WHL"@
    } else {
        &&& d.label@ == "drive-source-b"@
        &&& d.folder_id@ == "1PkGPZV2J3Fpq8jkvsxgWtXPLMtjlPpGT"@
        &&& d.folder_url@ == "https://drive.google.com/drive/folders/1PkGPZV2J3Fpq8jkvsxgWtXPLMtjlPpGT"@
    }
}

/// The two folders that publish the releases, in their default order.
pub fn zibo_drive_sources() -> (r: [DriveSource; 2])
    ensures
        is_drive_source(r[0], true),
        is_drive_source(r[1], false),
{
    [
        DriveSource {
            label: "drive-source-a",
            folder_id: "1qo88h_CCQRRrAMhG3EabHSwa4Lzw-WHL",
            folder_url: "https://drive.google.com/drive/folders/1qo88h_CCQRRrAMhG3EabHSwa4Lzw-WHL",
        },
        DriveSource {
            label: "drive-source-b",
            folder_id: "1PkGPZV2J3Fpq8jkvsxgWtXPLMtjlPpGT",
            folder_url: "https://drive.google.com/drive/folders/1PkGPZV2J3Fpq8jkvsxgWtXPLMtjlPpGT",
        },
    ]
}

/// The order in which the folders are tried: the default order for an even
/// seed, swapped for an odd one.
pub fn drive_source_order_for_seed(seed: u128) -> (r: [DriveSource; 2])
    ensures
        seed % 2 == 0 ==> is_drive_source(r[0], true) && is_drive_source(r[1], false),
        seed % 2 == 1 ==> is_drive_source(r[0], false) && is_drive_source(r[1], true),
{
    let sources = zibo_drive_sources();
    if seed % 2 == 0 {
        [sources[0], sources[1]]
    } else {
        [sources[1], sources[0]]
    }
}

/// `value` with each backslash doubled and each `'` escaped by a backslash.
pub open spec fn drive_query_literal(value: Seq<char>) -> Seq<char> {
    replace_all(replace_all(value, "\\"@, "\\\\"@), "'"@, "\\'"@)
}

pub fn escape_drive_query_literal(value: &str) -> (r: String)
    ensures
        r@ == drive_query_literal(value@),
{
    proof {
        lemma_nonempty_literals();
    }
    let v = chars_of(value);
    let a = replace_vec(&v, &chars_of("\\"), &chars_of("\\\\"));
    let b = replace_vec(&a, &chars_of("'"), &chars_of("\\'"));
    string_of(&b)
}

/// The search for an archive by exact name inside a folder.
pub fn build_drive_search_query(folder_id: &str, archive_name: &str) -> (r: String)
    ensures
        r@ == "'"@ + drive_query_literal(folder_id@) + "' in parents and name = '"@
            + drive_query_literal(archive_name@) + "' and trashed = false"@,
{
    let mut q = chars_of("'");
    push_all(&mut q, &chars_of(escape_drive_query_literal(folder_id).as_str()));
    push_all(&mut q, &chars_of("' in parents and name = '"));
    push_all(&mut q, &chars_of(escape_drive_query_literal(archive_name).as_str()));
    push_all(&mut q, &chars_of("' and trashed = false"));
    string_of(&q)
}

/// Whether a failed probe of the folders only failed because the archive
/// was missing from them (and not on a request error).
pub fn drive_probe_failed_only_due_to_missing_files(message: &str) -> (r: bool)
    ensures
        r == (contains(message@, "was not found in Google Drive source"@) && !contains(
            message@,
            "probe returned"@,
        ) && !contains(message@, "Failed to probe Google Drive download"@) && !contains(
            message@,
            "returned an error while searching"@,
        ) && !contains(message@, "Failed to search"@)),
{
    let m = chars_of(message);
    contains_exec(&m, &chars_of("was not found in Google Drive source")) && !contains_exec(
        &m,
        &chars_of("probe returned"),
    ) && !contains_exec(&m, &chars_of("Failed to probe Google Drive download"))
        && !contains_exec(&m, &chars_of("returned an error while searching"))
        && !contains_exec(&m, &chars_of("Failed to search"))
}

/// Whether a probe failed on the download quota of a folder.
pub fn drive_probe_contains_quota_exceeded(message: &str) -> (r: bool)
    ensures
        r == contains(message@, "reason=downloadQuotaExceeded"@),
{
    let m = chars_of(message);
    contains_exec(&m, &chars_of("reason=downloadQuotaExceeded"))
}

} // verus!
