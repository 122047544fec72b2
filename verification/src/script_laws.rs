//! What toggling a FlyWithLua script promises: toggling twice gives the
//! script its name back, with the extension in lower case.

use vstd::prelude::*;
use crate::text::{ascii_lower_seq, lowercase};
use crate::manage::{extension_of, file_stem_of, last_dot, lower_extension, toggled_script};

verus! {

/// The last dot of `s + "." + e`, for a non-empty `s` and an `e` without a
/// dot, is the one put in between.
proof fn lemma_last_dot_joined(s: Seq<char>, e: Seq<char>, end: int)
    requires
        s.len() >= 1,
        forall|j: int| 0 <= j < e.len() ==> #[trigger] e[j] != '.',
        s.len() + 1 <= end <= s.len() + 1 + e.len(),
    ensures
        last_dot(s + seq!['.'] + e, end) == Some(e),
    decreases end,
{
    let n = s + seq!['.'] + e;
    if end == s.len() + 1 {
        assert(n[s.len() as int] == '.');
        assert(n.subrange(end, n.len() as int) =~= e);
    } else {
        assert(n[end - 1] == e[end - 1 - s.len() - 1]);
        lemma_last_dot_joined(s, e, end - 1);
    }
}

/// A name made of a non-empty stem and an extension without a dot has that
/// stem and that extension.
proof fn lemma_stem_and_extension(s: Seq<char>, e: Seq<char>)
    requires
        s.len() >= 1,
        forall|j: int| 0 <= j < e.len() ==> #[trigger] e[j] != '.',
    ensures
        extension_of(s + seq!['.'] + e) == Some(e),
        file_stem_of(s + seq!['.'] + e) == s,
{
    let n = s + seq!['.'] + e;
    lemma_last_dot_joined(s, e, n.len() as int);
    assert(n.subrange(0, n.len() - e.len() - 1) =~= s);
}

proof fn lemma_stem_nonempty(name: Seq<char>)
    requires
        extension_of(name) is Some,
    ensures
        file_stem_of(name).len() >= 1,
{
    lemma_last_dot_position(name, name.len() as int);
}

proof fn lemma_last_dot_position(name: Seq<char>, end: int)
    requires
        last_dot(name, end) is Some,
    ensures
        name.len() - last_dot(name, end)->0.len() - 1 >= 1,
    decreases end,
{
    if !(end <= 1 || end > name.len()) && name[end - 1] != '.' {
        lemma_last_dot_position(name, end - 1);
    }
}

/// Toggling a script twice gives it back its name, with its extension in
/// lower case; the first toggle disables a `.lua` script and enables an
/// `.xfml` one, the second does the opposite.
pub proof fn law_lua_toggle_twice(name: Seq<char>)
    requires
        toggled_script(name) is Some,
    ensures
        ({
            let (b1, n1) = toggled_script(name).unwrap();
            let (b2, n2) = toggled_script(n1).unwrap();
            &&& toggled_script(n1) is Some
            &&& b2 == !b1
            &&& n2 == file_stem_of(name) + seq!['.'] + lower_extension(name)
            &&& (extension_of(name) == Some(lower_extension(name)) ==> n2 == name)
        }),
{
    reveal_strlit("lua");
    reveal_strlit("xfml");
    reveal_strlit(".lua");
    reveal_strlit(".xfml");
    reveal(lowercase);
    assert(".lua"@ =~= seq!['.'] + "lua"@);
    assert(".xfml"@ =~= seq!['.'] + "xfml"@);
    assert(ascii_lower_seq("lua"@) =~= "lua"@);
    assert(ascii_lower_seq("xfml"@) =~= "xfml"@);
    assert(lowercase("lua"@) == "lua"@);
    assert(lowercase("xfml"@) == "xfml"@);
    assert("lua"@ != "xfml"@) by {
        assert("lua"@.len() != "xfml"@.len());
    }
    let stem = file_stem_of(name);
    lemma_stem_nonempty(name);
    lemma_stem_and_extension(stem, "lua"@);
    lemma_stem_and_extension(stem, "xfml"@);
    assert(stem + seq!['.'] + "lua"@ =~= stem + ".lua"@);
    assert(stem + seq!['.'] + "xfml"@ =~= stem + ".xfml"@);
    if extension_of(name) == Some(lower_extension(name)) {
        let e = lower_extension(name);
        assert(name.subrange(0, name.len() - e.len() - 1) == stem);
        assert(name.subrange(name.len() - e.len(), name.len() as int) == e) by {
            lemma_suffix_of_extension(name, name.len() as int);
        }
        assert(name[name.len() - e.len() - 1] == '.') by {
            lemma_suffix_of_extension(name, name.len() as int);
        }
        let k = name.len() - e.len() - 1;
        lemma_last_dot_position(name, name.len() as int);
        assert(k >= 1);
        assert(stem.len() == k);
        let j = stem + seq!['.'] + e;
        assert(j.len() == name.len());
        assert forall|i: int| 0 <= i < name.len() implies #[trigger] j[i] == name[i] by {
            if i < k {
                assert(j[i] == stem[i]);
                assert(stem[i] == name.subrange(0, k)[i]);
            } else if i == k {
                assert(j[i] == '.');
            } else {
                assert(j[i] == e[i - k - 1]);
                assert(e[i - k - 1] == name.subrange(name.len() - e.len(), name.len() as int)[i - k - 1]);
            }
        }
        assert(j =~= name);
    }
}

proof fn lemma_suffix_of_extension(name: Seq<char>, end: int)
    requires
        last_dot(name, end) is Some,
        end <= name.len(),
    ensures
        ({
            let e = last_dot(name, end)->0;
            &&& name.subrange(name.len() - e.len(), name.len() as int) == e
            &&& name[name.len() - e.len() - 1] == '.'
        }),
    decreases end,
{
    if !(end <= 1 || end > name.len()) && name[end - 1] != '.' {
        lemma_suffix_of_extension(name, end - 1);
    }
}

} // verus!
