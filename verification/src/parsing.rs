//! The line grammar of a string-table file.
//!
//! A meaningful line has the shape
//! `optional-spaces "KEY" spaces = spaces "VALUE" spaces ; anything`,
//! where KEY and VALUE contain no double quote and KEY is never empty.
//! Two variants of the grammar are used deliberately: the strict one, which
//! demands a non-empty VALUE and feeds the declaration generator, and the
//! permissive one, which accepts an empty VALUE and feeds every key-set
//! computation, so that placeholder entries still count as keys.

use vstd::prelude::*;

use crate::localizable_model::LocalizableModel;
use crate::strutil::{is_space, is_space_char, vec_contains_str, contains_string, string_set, lemma_string_set_push};

verus! {

/// Whether the positions `a..f` decompose `line` as a key/value statement:
/// `a` and `b` delimit the quoted key, `c` is the equals sign, `d` and `e`
/// delimit the quoted value, and `f` is the closing semicolon.  Characters
/// after `f` are unconstrained.
pub open spec fn entry_match_at(
    line: Seq<char>,
    a: int,
    b: int,
    c: int,
    d: int,
    e: int,
    f: int,
    allow_empty: bool,
) -> bool {
    &&& 0 <= a < b < c < d < e < f < line.len()
    &&& (forall|j: int| 0 <= j < a ==> is_space_char(line[j]))
    &&& line[a] == '"'
    &&& a + 1 < b
    &&& (forall|j: int| a < j < b ==> line[j] != '"')
    &&& line[b] == '"'
    &&& (forall|j: int| b < j < c ==> is_space_char(line[j]))
    &&& line[c] == '='
    &&& (forall|j: int| c < j < d ==> is_space_char(line[j]))
    &&& line[d] == '"'
    &&& (allow_empty || d + 1 < e)
    &&& (forall|j: int| d < j < e ==> line[j] != '"')
    &&& line[e] == '"'
    &&& (forall|j: int| e < j < f ==> is_space_char(line[j]))
    &&& line[f] == ';'
}

/// Whether `line` matches the grammar; `allow_empty` selects the permissive
/// variant, which accepts an empty value.
pub open spec fn is_entry_line(line: Seq<char>, allow_empty: bool) -> bool {
    exists|a: int, b: int, c: int, d: int, e: int, f: int|
        entry_match_at(line, a, b, c, d, e, f, allow_empty)
}

/// The decomposition positions of a matching line (unique, by
/// `lemma_entry_positions_unique`).
pub open spec fn entry_positions(line: Seq<char>, allow_empty: bool) -> (
    int,
    int,
    int,
    int,
    int,
    int,
) {
    choose|a: int, b: int, c: int, d: int, e: int, f: int|
        entry_match_at(line, a, b, c, d, e, f, allow_empty)
}

/// The key captured from a matching line.
pub open spec fn entry_key(line: Seq<char>, allow_empty: bool) -> Seq<char> {
    let (a, b, c, d, e, f) = entry_positions(line, allow_empty);
    line.subrange(a + 1, b)
}

/// The value captured from a matching line.
pub open spec fn entry_value(line: Seq<char>, allow_empty: bool) -> Seq<char> {
    let (a, b, c, d, e, f) = entry_positions(line, allow_empty);
    line.subrange(d + 1, e)
}

/// Two descriptions of "the first position at or after `lo` whose character
/// satisfies `pred`" agree.
proof fn lemma_first_match_forced(
    line: Seq<char>,
    lo: int,
    x: int,
    y: int,
    pred: spec_fn(char) -> bool,
)
    requires
        lo <= x <= line.len(),
        lo <= y < line.len(),
        forall|j: int| lo <= j < x ==> !pred(line[j]),
        x < line.len() ==> pred(line[x]),
        forall|j: int| lo <= j < y ==> !pred(line[j]),
        pred(line[y]),
    ensures
        x == y,
{
    if y < x {
        assert(!pred(line[y]));
    }
    if x < y {
        assert(pred(line[x]));
        assert(!pred(line[x]));
    }
}

/// A line decomposes in at most one way, whichever grammar variant admitted
/// it: all six positions are forced.
pub proof fn lemma_entry_positions_unique(
    line: Seq<char>,
    a1: int,
    b1: int,
    c1: int,
    d1: int,
    e1: int,
    f1: int,
    ae1: bool,
    a2: int,
    b2: int,
    c2: int,
    d2: int,
    e2: int,
    f2: int,
    ae2: bool,
)
    requires
        entry_match_at(line, a1, b1, c1, d1, e1, f1, ae1),
        entry_match_at(line, a2, b2, c2, d2, e2, f2, ae2),
    ensures
        a1 == a2,
        b1 == b2,
        c1 == c2,
        d1 == d2,
        e1 == e2,
        f1 == f2,
{
    let nonspace = |ch: char| !is_space_char(ch);
    let quote = |ch: char| ch == '"';
    lemma_first_match_forced(line, 0, a1, a2, nonspace);
    lemma_first_match_forced(line, a1 + 1, b1, b2, quote);
    lemma_first_match_forced(line, b1 + 1, c1, c2, nonspace);
    lemma_first_match_forced(line, c1 + 1, d1, d2, nonspace);
    lemma_first_match_forced(line, d1 + 1, e1, e2, quote);
    lemma_first_match_forced(line, e1 + 1, f1, f2, nonspace);
}

/// The first position at or after `from` whose character is not whitespace,
/// or the length of `s` if all remaining characters are whitespace.
fn skip_spaces(s: &str, from: usize, n: usize) -> (r: usize)
    requires
        from <= n,
        n == s@.len(),
    ensures
        from <= r <= n,
        forall|j: int| from <= j < r ==> is_space_char(s@[j]),
        r < n ==> !is_space_char(s@[r as int]),
{
    let mut i = from;
    while i < n
        invariant
            from <= i <= n,
            n == s@.len(),
            forall|j: int| from <= j < i ==> is_space_char(s@[j]),
        decreases n - i,
    {
        if !is_space(s.get_char(i)) {
            return i;
        }
        i += 1;
    }
    i
}

/// The first position at or after `from` holding a double quote, or the
/// length of `s` if there is none.
fn find_quote(s: &str, from: usize, n: usize) -> (r: usize)
    requires
        from <= n,
        n == s@.len(),
    ensures
        from <= r <= n,
        forall|j: int| from <= j < r ==> s@[j] != '"',
        r < n ==> s@[r as int] == '"',
{
    let mut i = from;
    while i < n
        invariant
            from <= i <= n,
            n == s@.len(),
            forall|j: int| from <= j < i ==> s@[j] != '"',
        decreases n - i,
    {
        if s.get_char(i) == '"' {
            return i;
        }
        i += 1;
    }
    i
}

/// Parses one line against the grammar; `allow_empty` selects the permissive
/// variant.  Returns the captured key and value on a match, `None` on any
/// other line.
pub fn parse_localizable_line(line: &str, allow_empty: bool) -> (r: Option<LocalizableModel>)
    ensures
        match r {
            Some(m) => {
                &&& is_entry_line(line@, allow_empty)
                &&& m.key@ == entry_key(line@, allow_empty)
                &&& m.value@ == entry_value(line@, allow_empty)
            },
            None => !is_entry_line(line@, allow_empty),
        },
{
    let ghost nonspace = |ch: char| !is_space_char(ch);
    let ghost quote = |ch: char| ch == '"';
    let n = line.unicode_len();
    let a = skip_spaces(line, 0, n);
    if a == n || line.get_char(a) != '"' {
        proof {
            assert forall|a2: int, b2: int, c2: int, d2: int, e2: int, f2: int|
                !entry_match_at(line@, a2, b2, c2, d2, e2, f2, allow_empty) by {
                if entry_match_at(line@, a2, b2, c2, d2, e2, f2, allow_empty) {
                    lemma_first_match_forced(line@, 0, a as int, a2, nonspace);
                    assert(false);
                }
            }
        }
        return None;
    }
    let b = find_quote(line, a + 1, n);
    if b == n || b == a + 1 {
        proof {
            assert forall|a2: int, b2: int, c2: int, d2: int, e2: int, f2: int|
                !entry_match_at(line@, a2, b2, c2, d2, e2, f2, allow_empty) by {
                if entry_match_at(line@, a2, b2, c2, d2, e2, f2, allow_empty) {
                    lemma_first_match_forced(line@, 0, a as int, a2, nonspace);
                    lemma_first_match_forced(line@, a + 1, b as int, b2, quote);
                    assert(false);
                }
            }
        }
        return None;
    }
    let c = skip_spaces(line, b + 1, n);
    if c == n || line.get_char(c) != '=' {
        proof {
            assert forall|a2: int, b2: int, c2: int, d2: int, e2: int, f2: int|
                !entry_match_at(line@, a2, b2, c2, d2, e2, f2, allow_empty) by {
                if entry_match_at(line@, a2, b2, c2, d2, e2, f2, allow_empty) {
                    lemma_first_match_forced(line@, 0, a as int, a2, nonspace);
                    lemma_first_match_forced(line@, a + 1, b as int, b2, quote);
                    lemma_first_match_forced(line@, b + 1, c as int, c2, nonspace);
                    assert(false);
                }
            }
        }
        return None;
    }
    let d = skip_spaces(line, c + 1, n);
    if d == n || line.get_char(d) != '"' {
        proof {
            assert forall|a2: int, b2: int, c2: int, d2: int, e2: int, f2: int|
                !entry_match_at(line@, a2, b2, c2, d2, e2, f2, allow_empty) by {
                if entry_match_at(line@, a2, b2, c2, d2, e2, f2, allow_empty) {
                    lemma_first_match_forced(line@, 0, a as int, a2, nonspace);
                    lemma_first_match_forced(line@, a + 1, b as int, b2, quote);
                    lemma_first_match_forced(line@, b + 1, c as int, c2, nonspace);
                    lemma_first_match_forced(line@, c + 1, d as int, d2, nonspace);
                    assert(false);
                }
            }
        }
        return None;
    }
    let e = find_quote(line, d + 1, n);
    if e == n || (!allow_empty && e == d + 1) {
        proof {
            assert forall|a2: int, b2: int, c2: int, d2: int, e2: int, f2: int|
                !entry_match_at(line@, a2, b2, c2, d2, e2, f2, allow_empty) by {
                if entry_match_at(line@, a2, b2, c2, d2, e2, f2, allow_empty) {
                    lemma_first_match_forced(line@, 0, a as int, a2, nonspace);
                    lemma_first_match_forced(line@, a + 1, b as int, b2, quote);
                    lemma_first_match_forced(line@, b + 1, c as int, c2, nonspace);
                    lemma_first_match_forced(line@, c + 1, d as int, d2, nonspace);
                    lemma_first_match_forced(line@, d + 1, e as int, e2, quote);
                    assert(false);
                }
            }
        }
        return None;
    }
    let f = skip_spaces(line, e + 1, n);
    if f == n || line.get_char(f) != ';' {
        proof {
            assert forall|a2: int, b2: int, c2: int, d2: int, e2: int, f2: int|
                !entry_match_at(line@, a2, b2, c2, d2, e2, f2, allow_empty) by {
                if entry_match_at(line@, a2, b2, c2, d2, e2, f2, allow_empty) {
                    lemma_first_match_forced(line@, 0, a as int, a2, nonspace);
                    lemma_first_match_forced(line@, a + 1, b as int, b2, quote);
                    lemma_first_match_forced(line@, b + 1, c as int, c2, nonspace);
                    lemma_first_match_forced(line@, c + 1, d as int, d2, nonspace);
                    lemma_first_match_forced(line@, d + 1, e as int, e2, quote);
                    lemma_first_match_forced(line@, e + 1, f as int, f2, nonspace);
                    assert(false);
                }
            }
        }
        return None;
    }
    proof {
        assert(entry_match_at(line@, a as int, b as int, c as int, d as int, e as int, f as int,
                allow_empty));
        let (a2, b2, c2, d2, e2, f2) = entry_positions(line@, allow_empty);
        assert(entry_match_at(line@, a2, b2, c2, d2, e2, f2, allow_empty));
        lemma_entry_positions_unique(line@, a as int, b as int, c as int, d as int, e as int,
            f as int, allow_empty, a2, b2, c2, d2, e2, f2, allow_empty);
    }
    let key = line.substring_char(a + 1, b).to_owned();
    let value = line.substring_char(d + 1, e).to_owned();
    Some(LocalizableModel { key, value })
}

/// The character sequences of a sequence of strings.
pub open spec fn line_views(lines: Seq<String>) -> Seq<Seq<char>> {
    lines.map_values(|s: String| s@)
}

/// The entries of a file, line by line: one `(key, value)` pair per line
/// matching the selected grammar variant, in line order; other lines are
/// skipped.
pub open spec fn entries_of(lines: Seq<Seq<char>>, allow_empty: bool) -> Seq<
    (Seq<char>, Seq<char>),
>
    decreases lines.len(),
{
    if lines.len() == 0 {
        Seq::empty()
    } else {
        let rest = entries_of(lines.drop_last(), allow_empty);
        let l = lines.last();
        if is_entry_line(l, allow_empty) {
            rest.push((entry_key(l, allow_empty), entry_value(l, allow_empty)))
        } else {
            rest
        }
    }
}

/// Parses a whole file, given as its lines, with the strict grammar: lines
/// with an empty value or any other shape are skipped.
pub fn parse_localizable_lines(lines: &Vec<String>) -> (r: Vec<LocalizableModel>)
    ensures
        r@.map_values(|m: LocalizableModel| m@) == entries_of(line_views(lines@), false),
{
    let mut r: Vec<LocalizableModel> = Vec::new();
    let mut i: usize = 0;
    while i < lines.len()
        invariant
            i <= lines@.len(),
            r@.map_values(|m: LocalizableModel| m@) == entries_of(
                line_views(lines@).take(i as int),
                false,
            ),
        decreases lines@.len() - i,
    {
        let ghost prefix = line_views(lines@).take(i as int);
        let ghost next = line_views(lines@).take(i + 1);
        proof {
            assert(next.drop_last() =~= prefix);
            assert(next.last() == lines@[i as int]@);
        }
        if let Some(m) = parse_localizable_line(lines[i].as_str(), false) {
            r.push(m);
        }
        proof {
            assert(r@.map_values(|m: LocalizableModel| m@) =~= entries_of(next, false));
        }
        i += 1;
    }
    proof {
        assert(line_views(lines@).take(lines@.len() as int) =~= line_views(lines@));
    }
    r
}

/// The set of keys of a file: every key captured by the permissive grammar
/// from some line, so placeholder entries with an empty value count.
pub open spec fn line_key_set(lines: Seq<Seq<char>>) -> Set<Seq<char>> {
    Set::new(
        |k: Seq<char>|
            exists|i: int|
                0 <= i < lines.len() && is_entry_line(lines[i], true) && entry_key(lines[i], true)
                    == k,
    )
}

/// Appending a line extends the key set by that line's key when it matches
/// the permissive grammar, and not at all otherwise.
pub proof fn lemma_line_key_set_push(s: Seq<Seq<char>>, l: Seq<char>)
    ensures
        line_key_set(s.push(l)) == if is_entry_line(l, true) {
            line_key_set(s).insert(entry_key(l, true))
        } else {
            line_key_set(s)
        },
{
    let t = s.push(l);
    assert forall|k: Seq<char>| line_key_set(t).contains(k) implies line_key_set(s).contains(k)
        || (is_entry_line(l, true) && k == entry_key(l, true)) by {
        let j = choose|j: int|
            0 <= j < t.len() && is_entry_line(t[j], true) && entry_key(t[j], true) == k;
        if j < s.len() {
            assert(t[j] == s[j]);
        } else {
            assert(t[j] == l);
        }
    }
    assert forall|k: Seq<char>| line_key_set(s).contains(k) implies line_key_set(t).contains(k) by {
        let j = choose|j: int|
            0 <= j < s.len() && is_entry_line(s[j], true) && entry_key(s[j], true) == k;
        assert(t[j] == s[j]);
        assert(is_entry_line(t[j], true) && entry_key(t[j], true) == k);
    }
    if is_entry_line(l, true) {
        assert(t[s.len() as int] == l);
        assert(line_key_set(t).contains(entry_key(l, true)));
        assert(line_key_set(t) =~= line_key_set(s).insert(entry_key(l, true)));
    } else {
        assert(line_key_set(t) =~= line_key_set(s));
    }
}

/// Collects the distinct keys of a file, given as its lines, in order of
/// first occurrence.
pub fn extract_keys(lines: &Vec<String>) -> (r: Vec<String>)
    ensures
        forall|i: int, j: int| 0 <= i < j < r@.len() ==> r@[i]@ != r@[j]@,
        string_set(r@) == line_key_set(line_views(lines@)),
{
    let mut r: Vec<String> = Vec::new();
    let mut i: usize = 0;
    while i < lines.len()
        invariant
            i <= lines@.len(),
            forall|p: int, q: int| 0 <= p < q < r@.len() ==> r@[p]@ != r@[q]@,
            string_set(r@) == line_key_set(line_views(lines@).take(i as int)),
        decreases lines@.len() - i,
    {
        let ghost prefix = line_views(lines@).take(i as int);
        let ghost cur = lines@[i as int]@;
        proof {
            assert(line_views(lines@).take(i + 1) =~= prefix.push(cur));
            lemma_line_key_set_push(prefix, cur);
        }
        if let Some(m) = parse_localizable_line(lines[i].as_str(), true) {
            if !vec_contains_str(&r, m.key.as_str()) {
                proof {
                    lemma_string_set_push(r@, m.key);
                    assert(forall|p: int|
                        0 <= p < r@.len() ==> #[trigger] r@[p]@ != m.key@);
                }
                r.push(m.key);
            } else {
                proof {
                    assert(line_key_set(prefix).contains(entry_key(cur, true)));
                    assert(line_key_set(prefix).insert(entry_key(cur, true)) =~= line_key_set(
                        prefix,
                    ));
                }
            }
        }
        i += 1;
    }
    proof {
        assert(line_views(lines@).take(lines@.len() as int) =~= line_views(lines@));
    }
    r
}

} // verus!
