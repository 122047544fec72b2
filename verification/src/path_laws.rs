//! What normalising a manifest path promises: a normalised path is already
//! normal, so normalising it again gives it back unchanged.

use vstd::prelude::*;
use crate::text::{
    contains, is_ws, join, lemma_split_pieces_nonempty, replace_all, split_pieces, starts_with,
    trim, trim_start_char,
};
use crate::xupdater::strip_dot_slash;
use crate::skunk::{manifest_path, manifest_path_text, path_segments};
use crate::profile_laws::{lemma_trim_idempotent, lemma_trim_plain_ends, lemma_trim_shape};

verus! {

/// No character of `s` is `d`.
pub open spec fn avoids(s: Seq<char>, d: char) -> bool {
    forall|j: int| 0 <= j < s.len() ==> #[trigger] s[j] != d
}

/// A segment that normalising keeps as it is: non-empty, trimmed, neither
/// `.` nor `..`, without `:`, `/` or `\`.
pub open spec fn normal_segment(p: Seq<char>) -> bool {
    &&& p.len() > 0
    &&& trim(p) == p
    &&& p != seq!['.']
    &&& p != seq!['.', '.']
    &&& !contains(p, seq![':'])
    &&& avoids(p, '/')
    &&& avoids(p, '\\')
}

proof fn lemma_replace_backslashes_avoid(s: Seq<char>)
    ensures
        avoids(replace_all(s, seq!['\\'], seq!['/']), '\\'),
    decreases s.len(),
{
    let r = replace_all(s, seq!['\\'], seq!['/']);
    if s.len() > 0 {
        if starts_with(s, seq!['\\']) {
            let t = s.subrange(1, s.len() as int);
            lemma_replace_backslashes_avoid(t);
            let rt = replace_all(t, seq!['\\'], seq!['/']);
            assert(r == seq!['/'] + rt);
            assert forall|j: int| 0 <= j < r.len() implies #[trigger] r[j] != '\\' by {
                if j > 0 {
                    assert(r[j] == rt[j - 1]);
                }
            }
        } else {
            let t = s.drop_first();
            lemma_replace_backslashes_avoid(t);
            let rt = replace_all(t, seq!['\\'], seq!['/']);
            assert(r == seq![s[0]] + rt);
            assert(s[0] != '\\') by {
                if s[0] == '\\' {
                    assert(s.subrange(0, 1) =~= seq!['\\']);
                }
            }
            assert forall|j: int| 0 <= j < r.len() implies #[trigger] r[j] != '\\' by {
                if j > 0 {
                    assert(r[j] == rt[j - 1]);
                }
            }
        }
    }
}

proof fn lemma_replace_backslashes_plain(s: Seq<char>)
    requires
        avoids(s, '\\'),
    ensures
        replace_all(s, seq!['\\'], seq!['/']) == s,
    decreases s.len(),
{
    if s.len() > 0 {
        assert(!starts_with(s, seq!['\\'])) by {
            if starts_with(s, seq!['\\']) {
                assert(s.subrange(0, 1)[0] == s[0]);
            }
        }
        let t = s.drop_first();
        lemma_replace_backslashes_plain(t);
        assert(seq![s[0]] + t =~= s);
    }
}

proof fn lemma_strip_dot_slash_avoid(s: Seq<char>, d: char)
    requires
        avoids(s, d),
    ensures
        avoids(strip_dot_slash(s), d),
    decreases s.len(),
{
    if s.len() >= 2 && s[0] == '.' && s[1] == '/' {
        let t = s.subrange(2, s.len() as int);
        assert forall|j: int| 0 <= j < t.len() implies #[trigger] t[j] != d by {
            assert(t[j] == s[j + 2]);
        }
        lemma_strip_dot_slash_avoid(t, d);
    }
}

proof fn lemma_trim_start_char_avoid(s: Seq<char>, c: char, d: char)
    requires
        avoids(s, d),
    ensures
        avoids(trim_start_char(s, c), d),
    decreases s.len(),
{
    if s.len() > 0 && s[0] == c {
        let t = s.drop_first();
        assert forall|j: int| 0 <= j < t.len() implies #[trigger] t[j] != d by {
            assert(t[j] == s[j + 1]);
        }
        lemma_trim_start_char_avoid(t, c, d);
    }
}

/// The pieces of a split hold neither the separator nor a character that
/// the text does not hold.
pub proof fn lemma_split_pieces_avoid(s: Seq<char>, c: char, d: char)
    requires
        avoids(s, d),
    ensures
        forall|i: int|
            0 <= i < split_pieces(s, c).len() ==> avoids(#[trigger] split_pieces(s, c)[i], d)
                && avoids(split_pieces(s, c)[i], c),
    decreases s.len(),
{
    if s.len() > 0 {
        let sd = s.drop_last();
        assert forall|j: int| 0 <= j < sd.len() implies #[trigger] sd[j] != d by {
            assert(sd[j] == s[j]);
        }
        lemma_split_pieces_avoid(sd, c, d);
        lemma_split_pieces_nonempty(sd, c);
        let p = split_pieces(sd, c);
        let q = split_pieces(s, c);
        if s.last() == c {
            assert(q == p.push(Seq::<char>::empty()));
            assert forall|i: int| 0 <= i < q.len() implies avoids(#[trigger] q[i], d) && avoids(
                q[i],
                c,
            ) by {
                if i < p.len() {
                    assert(q[i] == p[i]);
                }
            }
        } else {
            assert(q == p.update(p.len() - 1, p.last().push(s.last())));
            assert forall|i: int| 0 <= i < q.len() implies avoids(#[trigger] q[i], d) && avoids(
                q[i],
                c,
            ) by {
                if i == p.len() - 1 {
                    let x = p[i];
                    assert(avoids(x, d) && avoids(x, c));
                    assert(q[i] == x.push(s.last()));
                    assert forall|j: int| 0 <= j < q[i].len() implies #[trigger] q[i][j] != d
                        && q[i][j] != c by {
                        if j < x.len() {
                            assert(q[i][j] == x[j]);
                        }
                    }
                } else {
                    assert(q[i] == p[i]);
                }
            }
        }
    }
}

/// A trimmed text holds only characters of the text.
proof fn lemma_trim_avoid(s: Seq<char>, d: char)
    requires
        avoids(s, d),
    ensures
        avoids(trim(s), d),
{
    lemma_trim_shape(s);
    let (a, b) = choose|a: int, b: int|
        0 <= a <= b <= s.len() && trim(s) == s.subrange(a, b) && (forall|j: int|
            0 <= j < a ==> is_ws(#[trigger] s[j])) && (forall|j: int|
            b <= j < s.len() ==> is_ws(#[trigger] s[j])) && (a < b ==> !is_ws(s[a]) && !is_ws(
            s[b - 1],
        ));
    assert forall|j: int| 0 <= j < trim(s).len() implies #[trigger] trim(s)[j] != d by {
        assert(trim(s)[j] == s[a + j]);
    }
}

/// A non-empty text that is its own trim has no white space at its ends.
proof fn lemma_trimmed_ends(p: Seq<char>)
    requires
        p.len() > 0,
        trim(p) == p,
    ensures
        !is_ws(p[0]),
        !is_ws(p.last()),
{
    lemma_trim_shape(p);
    let (a, b) = choose|a: int, b: int|
        0 <= a <= b <= p.len() && trim(p) == p.subrange(a, b) && (forall|j: int|
            0 <= j < a ==> is_ws(#[trigger] p[j])) && (forall|j: int|
            b <= j < p.len() ==> is_ws(#[trigger] p[j])) && (a < b ==> !is_ws(p[a]) && !is_ws(
            p[b - 1],
        ));
    assert(p.subrange(a, b).len() == b - a);
    assert(a == 0 && b == p.len());
    assert(p[0] == p[a]);
    assert(p.last() == p[b - 1]);
}

/// The segments that survive are normal.
proof fn lemma_path_segments_normal(pieces: Seq<Seq<char>>)
    requires
        forall|i: int|
            0 <= i < pieces.len() ==> avoids(#[trigger] pieces[i], '/') && avoids(pieces[i], '\\'),
        path_segments(pieces) is Ok,
    ensures
        forall|i: int|
            0 <= i < path_segments(pieces)->Ok_0.len() ==> normal_segment(
                #[trigger] path_segments(pieces)->Ok_0[i],
            ),
    decreases pieces.len(),
{
    if pieces.len() > 0 {
        let pd = pieces.drop_last();
        assert forall|i: int| 0 <= i < pd.len() implies avoids(#[trigger] pd[i], '/') && avoids(
            pd[i],
            '\\',
        ) by {
            assert(pd[i] == pieces[i]);
        }
        lemma_path_segments_normal(pd);
        let parts = path_segments(pd)->Ok_0;
        let seg = trim(pieces.last());
        let out = path_segments(pieces)->Ok_0;
        if !(seg.len() == 0 || seg == seq!['.']) {
            assert(out == parts.push(seg));
            lemma_trim_idempotent(pieces.last());
            lemma_trim_avoid(pieces.last(), '/');
            lemma_trim_avoid(pieces.last(), '\\');
            assert forall|i: int| 0 <= i < out.len() implies normal_segment(#[trigger] out[i]) by {
                if i < parts.len() {
                    assert(out[i] == parts[i]);
                }
            }
        }
    }
}

/// Segments that are already normal all survive.
proof fn lemma_path_segments_of_normal(parts: Seq<Seq<char>>)
    requires
        forall|i: int| 0 <= i < parts.len() ==> normal_segment(#[trigger] parts[i]),
    ensures
        path_segments(parts) == Ok::<Seq<Seq<char>>, u8>(parts),
    decreases parts.len(),
{
    if parts.len() > 0 {
        let pd = parts.drop_last();
        assert forall|i: int| 0 <= i < pd.len() implies normal_segment(#[trigger] pd[i]) by {
            assert(pd[i] == parts[i]);
        }
        lemma_path_segments_of_normal(pd);
        let x = parts.last();
        assert(normal_segment(parts[parts.len() - 1]));
        assert(trim(x) == x);
        assert(x.len() > 0);
        assert(x != seq!['.']);
        assert(x != seq!['.', '.']);
        assert(!contains(x, seq![':']));
        assert(path_segments(parts) == Ok::<Seq<Seq<char>>, u8>(pd.push(x)));
        assert(pd.push(x) =~= parts);
    } else {
        assert(parts =~= Seq::<Seq<char>>::empty());
    }
}

/// A join starts with its first piece.
proof fn lemma_join_prefix(xs: Seq<Seq<char>>, sep: Seq<char>)
    requires
        xs.len() >= 1,
    ensures
        join(xs, sep).len() >= xs[0].len(),
        join(xs, sep).subrange(0, xs[0].len() as int) == xs[0],
    decreases xs.len(),
{
    if xs.len() == 1 {
        assert(join(xs, sep).subrange(0, xs[0].len() as int) =~= xs[0]);
    } else {
        let xd = xs.drop_last();
        lemma_join_prefix(xd, sep);
        assert(xd[0] == xs[0]);
        let j = join(xd, sep);
        assert(join(xs, sep) == j + sep + xs.last());
        assert((j + sep + xs.last()).subrange(0, xs[0].len() as int) =~= j.subrange(
            0,
            xs[0].len() as int,
        ));
    }
}

/// A join ends with its last piece.
pub proof fn lemma_join_last(xs: Seq<Seq<char>>, sep: Seq<char>)
    requires
        xs.len() >= 1,
        xs.last().len() > 0,
    ensures
        join(xs, sep).len() > 0,
        join(xs, sep).last() == xs.last().last(),
{
    if xs.len() >= 2 {
        let j = join(xs.drop_last(), sep);
        assert(join(xs, sep) == j + sep + xs.last());
    }
}

/// A join holds only characters of its pieces and separator.
pub proof fn lemma_join_avoid(xs: Seq<Seq<char>>, sep: Seq<char>, d: char)
    requires
        forall|i: int| 0 <= i < xs.len() ==> avoids(#[trigger] xs[i], d),
        avoids(sep, d),
    ensures
        avoids(join(xs, sep), d),
    decreases xs.len(),
{
    if xs.len() == 1 {
        assert(avoids(xs[0], d));
    } else if xs.len() >= 2 {
        let xd = xs.drop_last();
        assert forall|i: int| 0 <= i < xd.len() implies avoids(#[trigger] xd[i], d) by {
            assert(xd[i] == xs[i]);
        }
        lemma_join_avoid(xd, sep, d);
        let j = join(xd, sep);
        let x = xs.last();
        assert(avoids(x, d));
        let r = j + sep + x;
        assert(join(xs, sep) == r);
        assert forall|k: int| 0 <= k < r.len() implies #[trigger] r[k] != d by {
            if k < j.len() {
                assert(r[k] == j[k]);
            } else if k < j.len() + sep.len() {
                assert(r[k] == sep[k - j.len()]);
            } else {
                assert(r[k] == x[k - j.len() - sep.len()]);
            }
        }
    }
}

/// Appending text without the separator extends the last piece.
proof fn lemma_split_append_avoid(s: Seq<char>, w: Seq<char>, c: char)
    requires
        avoids(w, c),
    ensures
        split_pieces(s + w, c) == split_pieces(s, c).update(
            split_pieces(s, c).len() - 1,
            split_pieces(s, c).last() + w,
        ),
    decreases w.len(),
{
    lemma_split_pieces_nonempty(s, c);
    let p = split_pieces(s, c);
    if w.len() == 0 {
        assert(s + w =~= s);
        assert(p.update(p.len() - 1, p.last() + w) =~= p);
    } else {
        let wd = w.drop_last();
        assert forall|j: int| 0 <= j < wd.len() implies #[trigger] wd[j] != c by {
            assert(wd[j] == w[j]);
        }
        lemma_split_append_avoid(s, wd, c);
        assert((s + w).drop_last() =~= s + wd);
        assert((s + w).last() == w[w.len() - 1]);
        assert((p.last() + wd).push(w.last()) =~= p.last() + w);
        assert(split_pieces(s + w, c) =~= p.update(p.len() - 1, p.last() + w));
    }
}

/// Splitting a join of pieces without the separator gives the pieces back.
proof fn lemma_split_join_avoid(xs: Seq<Seq<char>>, c: char)
    requires
        xs.len() >= 1,
        forall|i: int| 0 <= i < xs.len() ==> avoids(#[trigger] xs[i], c),
    ensures
        split_pieces(join(xs, seq![c]), c) == xs,
    decreases xs.len(),
{
    if xs.len() == 1 {
        lemma_split_append_avoid(Seq::empty(), xs[0], c);
        assert(Seq::<char>::empty() + xs[0] =~= xs[0]);
        assert(split_pieces(Seq::<char>::empty(), c) =~= seq![Seq::<char>::empty()]);
        assert(split_pieces(join(xs, seq![c]), c) =~= xs);
    } else {
        let xd = xs.drop_last();
        assert forall|i: int| 0 <= i < xd.len() implies avoids(#[trigger] xd[i], c) by {
            assert(xd[i] == xs[i]);
        }
        lemma_split_join_avoid(xd, c);
        let j = join(xd, seq![c]);
        let x = xs.last();
        assert(join(xs, seq![c]) == j + seq![c] + x);
        assert(j + seq![c] =~= j.push(c));
        assert(j.push(c).drop_last() =~= j);
        assert(split_pieces(j.push(c), c) == xd.push(Seq::<char>::empty()));
        lemma_split_append_avoid(j.push(c), x, c);
        assert(Seq::<char>::empty() + x =~= x);
        assert(split_pieces(join(xs, seq![c]), c) =~= xs);
    }
}

/// Normalising a manifest path twice gives what normalising it once gives:
/// a normalised path is its own normal form.
pub proof fn law_manifest_path_idempotent(path: Seq<char>)
    requires
        manifest_path(path) is Ok,
    ensures
        manifest_path(manifest_path(path)->Ok_0) == manifest_path(path),
{
    let text = manifest_path_text(path);
    let r = replace_all(trim(path), seq!['\\'], seq!['/']);
    lemma_replace_backslashes_avoid(trim(path));
    lemma_strip_dot_slash_avoid(r, '\\');
    lemma_trim_start_char_avoid(strip_dot_slash(r), '/', '\\');
    assert(avoids(text, '\\'));
    let pieces = split_pieces(text, '/');
    lemma_split_pieces_avoid(text, '/', '\\');
    lemma_path_segments_normal(pieces);
    let parts = path_segments(pieces)->Ok_0;
    let q = join(parts, seq!['/']);
    assert(manifest_path(path) == Ok::<Seq<char>, u8>(q));
    assert(parts.len() >= 1);
    let p0 = parts[0];
    assert(normal_segment(p0));
    assert(normal_segment(parts.last()));
    lemma_join_prefix(parts, seq!['/']);
    lemma_join_last(parts, seq!['/']);
    assert(q[0] == p0[0]) by {
        assert(q.subrange(0, p0.len() as int)[0] == q[0]);
    }
    lemma_trimmed_ends(p0);
    lemma_trimmed_ends(parts.last());
    lemma_trim_plain_ends(q);
    assert forall|i: int| 0 <= i < parts.len() implies avoids(#[trigger] parts[i], '\\') by {
        assert(normal_segment(parts[i]));
    }
    assert(avoids(seq!['/'], '\\'));
    lemma_join_avoid(parts, seq!['/'], '\\');
    lemma_replace_backslashes_plain(q);
    assert(strip_dot_slash(q) == q) by {
        if q.len() >= 2 && q[0] == '.' && q[1] == '/' {
            if p0.len() >= 2 {
                assert(q.subrange(0, p0.len() as int)[1] == q[1]);
                assert(p0[1] == '/');
            } else {
                assert(p0 =~= seq!['.']);
            }
        }
    }
    assert(p0[0] != '/');
    assert(trim_start_char(q, '/') == q);
    assert(manifest_path_text(q) == q);
    assert forall|i: int| 0 <= i < parts.len() implies avoids(#[trigger] parts[i], '/') by {
        assert(normal_segment(parts[i]));
    }
    lemma_split_join_avoid(parts, '/');
    lemma_path_segments_of_normal(parts);
}

} // verus!
