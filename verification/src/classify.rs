//! The path convention of a localized resource file.
//!
//! A path is classified when it ends in `/<lang>.lproj/<name>.strings`,
//! where `<lang>` and `<name>` are non-empty and hold no slash.  The match
//! is anchored at the right: the language directory is the one immediately
//! above the file, and every earlier `.lproj` segment stays in the prefix.
//! A classified path yields the logical group `<prefix>/<name>` and the
//! language `<lang>`.

use vstd::prelude::*;

verus! {

/// The characters of the language-directory marker `.lproj`.
pub open spec fn lproj_suffix() -> Seq<char> {
    seq!['.', 'l', 'p', 'r', 'o', 'j']
}

/// The characters of the resource-file extension `.strings`.
pub open spec fn strings_suffix() -> Seq<char> {
    seq!['.', 's', 't', 'r', 'i', 'n', 'g', 's']
}

/// Whether the slash positions `s1 < s2` decompose `path` as
/// `<prefix> / <lang>.lproj / <name>.strings`: `s2` is the last slash of the
/// path, `s1` the one before it, the middle segment ends in `.lproj` with a
/// non-empty language before it, and the final segment ends in `.strings`
/// with a non-empty name before it.
pub open spec fn classify_match_at(path: Seq<char>, s1: int, s2: int) -> bool {
    &&& 0 <= s1 < s2 < path.len()
    &&& path[s1] == '/'
    &&& path[s2] == '/'
    &&& (forall|j: int| s1 < j < s2 ==> path[j] != '/')
    &&& (forall|j: int| s2 < j < path.len() ==> path[j] != '/')
    &&& s2 - s1 > 7
    &&& path.subrange(s2 - 6, s2) == lproj_suffix()
    &&& path.len() - s2 > 9
    &&& path.subrange(path.len() - 8, path.len() as int) == strings_suffix()
}

/// Whether `path` follows the convention.
pub open spec fn is_classifiable(path: Seq<char>) -> bool {
    exists|s1: int, s2: int| classify_match_at(path, s1, s2)
}

/// The decomposition positions of a classified path (unique, by
/// `lemma_classify_positions_unique`).
pub open spec fn classify_positions(path: Seq<char>) -> (int, int) {
    choose|s1: int, s2: int| classify_match_at(path, s1, s2)
}

/// The logical group of a classified path: its prefix, a slash, and the
/// file name without its extension.
pub open spec fn logical_group_of(path: Seq<char>) -> Seq<char> {
    let (s1, s2) = classify_positions(path);
    path.subrange(0, s1) + seq!['/'] + path.subrange(s2 + 1, path.len() - 8)
}

/// The language of a classified path: the language directory's name without
/// its `.lproj` marker.
pub open spec fn language_of(path: Seq<char>) -> Seq<char> {
    let (s1, s2) = classify_positions(path);
    path.subrange(s1 + 1, s2 - 6)
}

/// Two positions that both carry a slash with no slash between them and
/// `hi` agree.
proof fn lemma_last_slash_forced(path: Seq<char>, x: int, y: int, hi: int)
    requires
        0 <= x < hi <= path.len(),
        0 <= y < hi,
        path[x] == '/',
        path[y] == '/',
        forall|j: int| x < j < hi ==> path[j] != '/',
        forall|j: int| y < j < hi ==> path[j] != '/',
    ensures
        x == y,
{
    if x < y {
        assert(path[y] != '/');
    }
    if y < x {
        assert(path[x] != '/');
    }
}

/// A path decomposes in at most one way: both slash positions are forced.
pub proof fn lemma_classify_positions_unique(path: Seq<char>, a1: int, b1: int, a2: int, b2: int)
    requires
        classify_match_at(path, a1, b1),
        classify_match_at(path, a2, b2),
    ensures
        a1 == a2,
        b1 == b2,
{
    lemma_last_slash_forced(path, b1, b2, path.len() as int);
    lemma_last_slash_forced(path, a1, a2, b1);
}

/// The last position in `[lo, hi)` holding a slash, if any.
fn rfind_slash(s: &str, lo: usize, hi: usize) -> (r: Option<usize>)
    requires
        lo <= hi <= s@.len(),
    ensures
        match r {
            Some(i) => {
                &&& lo <= i < hi
                &&& s@[i as int] == '/'
                &&& forall|j: int| i < j < hi ==> s@[j] != '/'
            },
            None => forall|j: int| lo <= j < hi ==> s@[j] != '/',
        },
{
    let mut i = hi;
    while i > lo
        invariant
            lo <= i <= hi <= s@.len(),
            forall|j: int| i <= j < hi ==> s@[j] != '/',
        decreases i,
    {
        i -= 1;
        if s.get_char(i) == '/' {
            return Some(i);
        }
    }
    None
}

/// Decides whether the characters of `s` end in `.strings`.
fn has_strings_suffix(s: &str, n: usize) -> (r: bool)
    requires
        n == s@.len(),
        n >= 8,
    ensures
        r == (s@.subrange(n - 8, n as int) == strings_suffix()),
{
    let r = s.get_char(n - 8) == '.' && s.get_char(n - 7) == 's' && s.get_char(n - 6) == 't'
        && s.get_char(n - 5) == 'r' && s.get_char(n - 4) == 'i' && s.get_char(n - 3) == 'n'
        && s.get_char(n - 2) == 'g' && s.get_char(n - 1) == 's';
    proof {
        let sub = s@.subrange(n - 8, n as int);
        if r {
            assert(sub =~= strings_suffix());
        } else {
            assert(sub[0] == s@[n - 8]);
            assert(sub[1] == s@[n - 7]);
            assert(sub[2] == s@[n - 6]);
            assert(sub[3] == s@[n - 5]);
            assert(sub[4] == s@[n - 4]);
            assert(sub[5] == s@[n - 3]);
            assert(sub[6] == s@[n - 2]);
            assert(sub[7] == s@[n - 1]);
        }
    }
    r
}

/// Decides whether the characters of `s` before position `end` end in
/// `.lproj`.
fn has_lproj_suffix(s: &str, end: usize) -> (r: bool)
    requires
        6 <= end <= s@.len(),
    ensures
        r == (s@.subrange(end - 6, end as int) == lproj_suffix()),
{
    let r = s.get_char(end - 6) == '.' && s.get_char(end - 5) == 'l' && s.get_char(end - 4) == 'p'
        && s.get_char(end - 3) == 'r' && s.get_char(end - 2) == 'o' && s.get_char(end - 1) == 'j';
    proof {
        let sub = s@.subrange(end - 6, end as int);
        if r {
            assert(sub =~= lproj_suffix());
        } else {
            assert(sub[0] == s@[end - 6]);
            assert(sub[1] == s@[end - 5]);
            assert(sub[2] == s@[end - 4]);
            assert(sub[3] == s@[end - 3]);
            assert(sub[4] == s@[end - 2]);
            assert(sub[5] == s@[end - 1]);
        }
    }
    r
}

/// Classifies a file path.  On a path following the convention, returns the
/// logical group and the language; on any other path, returns nothing.
pub fn parse_key_and_language(path: &str) -> (r: Option<(String, String)>)
    ensures
        match r {
            Some(kl) => {
                &&& is_classifiable(path@)
                &&& kl.0@ == logical_group_of(path@)
                &&& kl.1@ == language_of(path@)
            },
            None => !is_classifiable(path@),
        },
{
    let n = path.unicode_len();
    let s2 = match rfind_slash(path, 0, n) {
        Some(i) => i,
        None => {
            proof {
                assert forall|a2: int, b2: int| !classify_match_at(path@, a2, b2) by {
                    if classify_match_at(path@, a2, b2) {
                        assert(path@[b2] == '/');
                        assert(false);
                    }
                }
            }
            return None;
        },
    };
    if n - s2 <= 9 || !has_strings_suffix(path, n) {
        proof {
            assert forall|a2: int, b2: int| !classify_match_at(path@, a2, b2) by {
                if classify_match_at(path@, a2, b2) {
                    lemma_last_slash_forced(path@, b2, s2 as int, n as int);
                    assert(false);
                }
            }
        }
        return None;
    }
    let s1 = match rfind_slash(path, 0, s2) {
        Some(i) => i,
        None => {
            proof {
                assert forall|a2: int, b2: int| !classify_match_at(path@, a2, b2) by {
                    if classify_match_at(path@, a2, b2) {
                        lemma_last_slash_forced(path@, b2, s2 as int, n as int);
                        assert(path@[a2] == '/');
                        assert(false);
                    }
                }
            }
            return None;
        },
    };
    if s2 - s1 <= 7 || !has_lproj_suffix(path, s2) {
        proof {
            assert forall|a2: int, b2: int| !classify_match_at(path@, a2, b2) by {
                if classify_match_at(path@, a2, b2) {
                    lemma_last_slash_forced(path@, b2, s2 as int, n as int);
                    lemma_last_slash_forced(path@, a2, s1 as int, s2 as int);
                    assert(false);
                }
            }
        }
        return None;
    }
    proof {
        assert(classify_match_at(path@, s1 as int, s2 as int));
        let (a2, b2) = classify_positions(path@);
        assert(classify_match_at(path@, a2, b2));
        lemma_classify_positions_unique(path@, s1 as int, s2 as int, a2, b2);
        reveal_strlit("/");
    }
    let mut key = path.substring_char(0, s1).to_owned();
    key.append("/");
    key.append(path.substring_char(s2 + 1, n - 8));
    let lang = path.substring_char(s1 + 1, s2 - 6).to_owned();
    proof {
        assert("/"@ =~= seq!['/']);
        assert(key@ == logical_group_of(path@));
    }
    Some((key, lang))
}

/// Every path built from the convention classifies back to its parts: for
/// any prefix, any non-empty slash-free language and name, the path
/// `<prefix>/<lang>.lproj/<name>.strings` yields the logical group
/// `<prefix>/<name>` and the language `<lang>`.
pub proof fn lemma_convention_classifies(prefix: Seq<char>, lang: Seq<char>, name: Seq<char>)
    requires
        lang.len() > 0,
        name.len() > 0,
        !lang.contains('/'),
        !name.contains('/'),
    ensures
        ({
            let path = prefix + seq!['/'] + lang + lproj_suffix() + seq!['/'] + name
                + strings_suffix();
            &&& is_classifiable(path)
            &&& logical_group_of(path) == prefix + seq!['/'] + name
            &&& language_of(path) == lang
        }),
{
    let path = prefix + seq!['/'] + lang + lproj_suffix() + seq!['/'] + name + strings_suffix();
    let s1 = prefix.len() as int;
    let s2: int = prefix.len() as int + 1 + lang.len() as int + 6;
    assert(path.len() == prefix.len() + 1 + lang.len() + 6 + 1 + name.len() + 8);
    assert(path[s1] == '/');
    assert(path[s2] == '/');
    assert forall|j: int| s1 < j < s2 implies path[j] != '/' by {
        if j < s1 + 1 + lang.len() {
            assert(path[j] == lang[j - s1 - 1]);
            assert(!(exists|w: int| 0 <= w < lang.len() && lang[w] == '/'));
        } else {
            assert(path[j] == lproj_suffix()[j - s1 - 1 - lang.len()]);
        }
    }
    assert forall|j: int| s2 < j < path.len() implies path[j] != '/' by {
        if j < s2 + 1 + name.len() {
            assert(path[j] == name[j - s2 - 1]);
            assert(!(exists|w: int| 0 <= w < name.len() && name[w] == '/'));
        } else {
            assert(path[j] == strings_suffix()[j - s2 - 1 - name.len()]);
        }
    }
    assert(path.subrange(s2 - 6, s2) =~= lproj_suffix());
    assert(path.subrange(path.len() - 8, path.len() as int) =~= strings_suffix());
    assert(classify_match_at(path, s1, s2));
    let (a2, b2) = classify_positions(path);
    assert(classify_match_at(path, a2, b2));
    lemma_classify_positions_unique(path, s1, s2, a2, b2);
    assert(path.subrange(0, s1) =~= prefix);
    assert(path.subrange(s2 + 1, path.len() - 8) =~= name);
    assert(path.subrange(s1 + 1, s2 - 6) =~= lang);
    assert(logical_group_of(path) =~= prefix + seq!['/'] + name);
}

/// Whether some position of `path` starts the marker `.lproj/` of a
/// language directory.
pub open spec fn has_language_dir(path: Seq<char>) -> bool {
    exists|i: int|
        0 <= i && i + 7 <= path.len() && #[trigger] path.subrange(i, i + 7) == lproj_suffix()
            + seq!['/']
}

/// A path without a language-directory segment is never classified.
pub proof fn lemma_no_language_dir_no_classification(path: Seq<char>)
    requires
        !has_language_dir(path),
    ensures
        !is_classifiable(path),
{
    if is_classifiable(path) {
        let (s1, s2) = classify_positions(path);
        assert(classify_match_at(path, s1, s2));
        assert forall|k: int| 0 <= k < 6 implies path[s2 - 6 + k] == lproj_suffix()[k] by {
            assert(path.subrange(s2 - 6, s2)[k] == path[s2 - 6 + k]);
        }
        assert(path.subrange(s2 - 6, s2 + 1) =~= lproj_suffix() + seq!['/']);
        assert(0 <= s2 - 6 && s2 - 6 + 7 <= path.len() && path.subrange(s2 - 6, s2 - 6 + 7)
            == lproj_suffix() + seq!['/']);
        assert(has_language_dir(path));
    }
}

/// The match is right-anchored: when a path holds two language directories,
/// the one immediately above the file names the language, and the earlier
/// one stays inside the logical group's prefix.
pub proof fn lemma_rightmost_language_dir_wins(
    p: Seq<char>,
    l1: Seq<char>,
    mid: Seq<char>,
    l2: Seq<char>,
    name: Seq<char>,
)
    requires
        l2.len() > 0,
        name.len() > 0,
        !l2.contains('/'),
        !name.contains('/'),
    ensures
        ({
            let pre = p + seq!['/'] + l1 + lproj_suffix() + seq!['/'] + mid;
            let path = pre + seq!['/'] + l2 + lproj_suffix() + seq!['/'] + name + strings_suffix();
            &&& is_classifiable(path)
            &&& logical_group_of(path) == pre + seq!['/'] + name
            &&& language_of(path) == l2
        }),
{
    let pre = p + seq!['/'] + l1 + lproj_suffix() + seq!['/'] + mid;
    lemma_convention_classifies(pre, l2, name);
}

} // verus!
