//! Character and string helpers shared by the parsing and sorting logic.

use vstd::prelude::*;

verus! {

/// The whitespace characters that may pad a string-table line: the Unicode
/// `White_Space` set.
pub open spec fn is_space_char(c: char) -> bool {
    ||| c == '\t'
    ||| c == '\n'
    ||| c == '\u{b}'
    ||| c == '\u{c}'
    ||| c == '\r'
    ||| c == ' '
    ||| c == '\u{85}'
    ||| c == '\u{a0}'
    ||| c == '\u{1680}'
    ||| ('\u{2000}' <= c && c <= '\u{200a}')
    ||| c == '\u{2028}'
    ||| c == '\u{2029}'
    ||| c == '\u{202f}'
    ||| c == '\u{205f}'
    ||| c == '\u{3000}'
}

/// Decides whether a character pads a line.
pub fn is_space(c: char) -> (r: bool)
    ensures
        r == is_space_char(c),
{
    c == '\t' || c == '\n' || c == '\u{b}' || c == '\u{c}' || c == '\r' || c == ' '
        || c == '\u{85}' || c == '\u{a0}' || c == '\u{1680}'
        || ('\u{2000}' <= c && c <= '\u{200a}') || c == '\u{2028}' || c == '\u{2029}'
        || c == '\u{202f}' || c == '\u{205f}' || c == '\u{3000}'
}

/// Decides whether two string slices hold the same characters.
pub fn str_eq(a: &str, b: &str) -> (r: bool)
    ensures
        r == (a@ == b@),
{
    let na = a.unicode_len();
    let nb = b.unicode_len();
    if na != nb {
        return false;
    }
    let mut i: usize = 0;
    while i < na
        invariant
            i <= na,
            na == a@.len(),
            nb == b@.len(),
            na == nb,
            forall|j: int| 0 <= j < i ==> a@[j] == b@[j],
        decreases na - i,
    {
        if a.get_char(i) != b.get_char(i) {
            return false;
        }
        i += 1;
    }
    proof {
        assert(a@ =~= b@);
    }
    true
}

/// Whether some element of `v` holds the characters `s`.
pub open spec fn contains_string(v: Seq<String>, s: Seq<char>) -> bool {
    exists|i: int| 0 <= i < v.len() && v[i]@ == s
}

/// The characters of the elements of `v`, as a set.
pub open spec fn string_set(v: Seq<String>) -> Set<Seq<char>> {
    Set::new(|s: Seq<char>| contains_string(v, s))
}

/// Whether the elements of `v` hold pairwise different characters.
pub open spec fn distinct_views(v: Seq<String>) -> bool {
    forall|p: int, q: int| 0 <= p < q < v.len() ==> v[p]@ != v[q]@
}

/// Appending an element extends the set of held character sequences by
/// exactly that element.
pub proof fn lemma_string_set_push(v: Seq<String>, s: String)
    ensures
        string_set(v.push(s)) == string_set(v).insert(s@),
{
    let t = v.push(s);
    assert forall|k: Seq<char>| contains_string(t, k) implies contains_string(v, k) || k == s@ by {
        let w = choose|w: int| 0 <= w < t.len() && t[w]@ == k;
        if w < v.len() {
            assert(v[w]@ == k);
        }
    }
    assert forall|k: Seq<char>| contains_string(v, k) implies contains_string(t, k) by {
        let w = choose|w: int| 0 <= w < v.len() && v[w]@ == k;
        assert(t[w]@ == k);
    }
    assert(t[v.len() as int]@ == s@);
    assert(string_set(v.push(s)) =~= string_set(v).insert(s@));
}

/// Decides whether `s` occurs among the elements of `v`.
pub fn vec_contains_str(v: &Vec<String>, s: &str) -> (r: bool)
    ensures
        r == contains_string(v@, s@),
{
    let mut i: usize = 0;
    while i < v.len()
        invariant
            i <= v@.len(),
            forall|j: int| 0 <= j < i ==> v@[j]@ != s@,
        decreases v@.len() - i,
    {
        if str_eq(v[i].as_str(), s) {
            return true;
        }
        i += 1;
    }
    false
}

/// Lexicographic order on character sequences by code point, the order in
/// which `str` comparison sorts valid text.
pub open spec fn lex_le(a: Seq<char>, b: Seq<char>) -> bool
    decreases a.len(),
{
    if a.len() == 0 {
        true
    } else if b.len() == 0 {
        false
    } else if a[0] == b[0] {
        lex_le(a.drop_first(), b.drop_first())
    } else {
        a[0] < b[0]
    }
}

/// `lex_le` relates every pair of sequences one way or the other.
pub proof fn lemma_lex_le_total(a: Seq<char>, b: Seq<char>)
    ensures
        lex_le(a, b) || lex_le(b, a),
    decreases a.len(),
{
    if a.len() > 0 && b.len() > 0 && a[0] == b[0] {
        lemma_lex_le_total(a.drop_first(), b.drop_first());
    }
}

/// `lex_le` is transitive.
pub proof fn lemma_lex_le_trans(a: Seq<char>, b: Seq<char>, c: Seq<char>)
    requires
        lex_le(a, b),
        lex_le(b, c),
    ensures
        lex_le(a, c),
    decreases a.len(),
{
    if a.len() > 0 && b.len() > 0 && c.len() > 0 && a[0] == b[0] && b[0] == c[0] {
        lemma_lex_le_trans(a.drop_first(), b.drop_first(), c.drop_first());
    }
}

/// Decides the lexicographic order of two string slices.
pub fn str_le(a: &str, b: &str) -> (r: bool)
    ensures
        r == lex_le(a@, b@),
{
    let na = a.unicode_len();
    let nb = b.unicode_len();
    let mut i: usize = 0;
    proof {
        assert(a@.skip(0) =~= a@);
        assert(b@.skip(0) =~= b@);
    }
    loop
        invariant
            i <= na,
            i <= nb,
            na == a@.len(),
            nb == b@.len(),
            forall|j: int| 0 <= j < i ==> a@[j] == b@[j],
            lex_le(a@, b@) == lex_le(a@.skip(i as int), b@.skip(i as int)),
        decreases na - i,
    {
        if i == na {
            proof {
                assert(a@.skip(i as int).len() == 0);
            }
            return true;
        }
        if i == nb {
            proof {
                assert(b@.skip(i as int).len() == 0);
                assert(a@.skip(i as int).len() > 0);
            }
            return false;
        }
        let ca = a.get_char(i);
        let cb = b.get_char(i);
        if ca != cb {
            proof {
                assert(a@.skip(i as int)[0] == ca);
                assert(b@.skip(i as int)[0] == cb);
            }
            return ca < cb;
        }
        proof {
            assert(a@.skip(i as int).drop_first() =~= a@.skip(i + 1));
            assert(b@.skip(i as int).drop_first() =~= b@.skip(i + 1));
            assert(a@.skip(i as int)[0] == a@[i as int]);
            assert(b@.skip(i as int)[0] == b@[i as int]);
        }
        i += 1;
    }
}

} // verus!
