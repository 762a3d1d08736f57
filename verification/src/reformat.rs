//! Reordering a string-table file.
//!
//! The reformatter partitions a file's lines into the leading content
//! before the first key/value line, the placeholder lines with an empty
//! value, and the lines carrying a value; it then writes the leading
//! content, a blank line, the placeholders, a blank line, and the valued
//! lines sorted alphabetically by key.  Non-matching lines after the first
//! key/value line are dropped.

use vstd::prelude::*;

use crate::parsing::{is_entry_line, entry_key, entry_value, parse_localizable_line, line_views};
use crate::strutil::{lex_le, lemma_lex_le_total, lemma_lex_le_trans, str_le};
use vstd::multiset::Multiset;

verus! {

/// A line carrying a key and an empty value.
pub open spec fn is_placeholder_line(l: Seq<char>) -> bool {
    is_entry_line(l, true) && entry_value(l, true).len() == 0
}

/// A line carrying a key and a non-empty value.
pub open spec fn is_value_line(l: Seq<char>) -> bool {
    is_entry_line(l, true) && entry_value(l, true).len() > 0
}

/// Whether some line matches the permissive grammar.
pub open spec fn has_entry_line(lines: Seq<Seq<char>>) -> bool {
    exists|j: int| 0 <= j < lines.len() && is_entry_line(#[trigger] lines[j], true)
}

/// The lines before the first key/value line.
pub open spec fn head_lines(lines: Seq<Seq<char>>) -> Seq<Seq<char>>
    decreases lines.len(),
{
    if lines.len() == 0 {
        Seq::empty()
    } else if is_entry_line(lines[0], true) {
        Seq::empty()
    } else {
        seq![lines[0]] + head_lines(lines.drop_first())
    }
}

/// The placeholder lines, in file order.
pub open spec fn placeholder_lines(lines: Seq<Seq<char>>) -> Seq<Seq<char>>
    decreases lines.len(),
{
    if lines.len() == 0 {
        Seq::empty()
    } else {
        let rest = placeholder_lines(lines.drop_last());
        if is_placeholder_line(lines.last()) {
            rest.push(lines.last())
        } else {
            rest
        }
    }
}

/// The valued lines, in file order.
pub open spec fn value_lines(lines: Seq<Seq<char>>) -> Seq<Seq<char>>
    decreases lines.len(),
{
    if lines.len() == 0 {
        Seq::empty()
    } else {
        let rest = value_lines(lines.drop_last());
        if is_value_line(lines.last()) {
            rest.push(lines.last())
        } else {
            rest
        }
    }
}

/// Alphabetical order of two lines by their captured keys.
pub open spec fn line_key_le(a: Seq<char>, b: Seq<char>) -> bool {
    lex_le(entry_key(a, true), entry_key(b, true))
}

/// Whether lines stand in alphabetical order of their keys.
pub open spec fn sorted_by_key(lines: Seq<Seq<char>>) -> bool {
    forall|p: int, q: int| 0 <= p < q < lines.len() ==> line_key_le(#[trigger] lines[p], #[trigger] lines[q])
}

/// How the reformatted lines `rv` relate to the original lines `lv`:
/// leading content, a blank line, the placeholders, a blank line, and a
/// permutation of the valued lines in key order.
pub open spec fn reformatted(lv: Seq<Seq<char>>, rv: Seq<Seq<char>>) -> bool {
    let h = head_lines(lv);
    let ph = placeholder_lines(lv);
    let vl = value_lines(lv);
    &&& rv.len() == h.len() + 1 + ph.len() + 1 + vl.len()
    &&& rv.subrange(0, h.len() as int) == h
    &&& rv[h.len() as int] == Seq::<char>::empty()
    &&& rv.subrange(h.len() as int + 1, h.len() + 1 + ph.len() as int) == ph
    &&& rv[h.len() + 1 + ph.len() as int] == Seq::<char>::empty()
    &&& rv.subrange(h.len() + 2 + ph.len() as int, rv.len() as int).to_multiset() == vl.to_multiset()
    &&& sorted_by_key(rv.subrange(h.len() + 2 + ph.len() as int, rv.len() as int))
}

/// How the leading content grows line by line: it takes every line until
/// the first key/value line and nothing after it.
proof fn lemma_head_lines_push(s: Seq<Seq<char>>, l: Seq<char>)
    ensures
        head_lines(s.push(l)) == if has_entry_line(s) {
            head_lines(s)
        } else if is_entry_line(l, true) {
            head_lines(s)
        } else {
            head_lines(s).push(l)
        },
    decreases s.len(),
{
    let t = s.push(l);
    if s.len() == 0 {
        assert(t[0] == l);
        if is_entry_line(l, true) {
            assert(head_lines(t) =~= head_lines(s));
        } else {
            assert(t.drop_first() =~= Seq::<Seq<char>>::empty());
            assert(head_lines(Seq::<Seq<char>>::empty()) =~= Seq::<Seq<char>>::empty());
            assert(head_lines(t) =~= head_lines(s).push(l));
        }
    } else {
        assert(t[0] == s[0]);
        if is_entry_line(s[0], true) {
            assert(has_entry_line(s));
        } else {
            assert(t.drop_first() =~= s.drop_first().push(l));
            lemma_head_lines_push(s.drop_first(), l);
            assert(has_entry_line(s) == has_entry_line(s.drop_first())) by {
                if has_entry_line(s) {
                    let j = choose|j: int|
                        0 <= j < s.len() && is_entry_line(#[trigger] s[j], true);
                    assert(j != 0);
                    assert(is_entry_line(s.drop_first()[j - 1], true));
                }
                if has_entry_line(s.drop_first()) {
                    let j = choose|j: int|
                        0 <= j < s.drop_first().len() && is_entry_line(
                            #[trigger] s.drop_first()[j],
                            true,
                        );
                    assert(is_entry_line(s[j + 1], true));
                }
            }
            if has_entry_line(s) {
                assert(head_lines(t) =~= head_lines(s));
            } else if is_entry_line(l, true) {
                assert(head_lines(t) =~= head_lines(s));
            } else {
                assert(head_lines(t) =~= head_lines(s).push(l));
            }
        }
    }
}

/// Inserting an element anywhere adds exactly it to the multiset.
proof fn lemma_insert_to_multiset<A>(s: Seq<A>, i: int, v: A)
    requires
        0 <= i <= s.len(),
    ensures
        s.insert(i, v).to_multiset() == s.to_multiset().insert(v),
{
    let pre = s.take(i);
    let post = s.skip(i);
    assert(s.insert(i, v) =~= pre + (seq![v] + post));
    assert(s =~= pre + post);
    vstd::seq_lib::lemma_multiset_commutative(pre, seq![v] + post);
    vstd::seq_lib::lemma_multiset_commutative(seq![v], post);
    vstd::seq_lib::lemma_multiset_commutative(pre, post);
    assert(seq![v] =~= Seq::<A>::empty().push(v));
    Seq::<A>::empty().to_multiset_ensures();
    seq![v].to_multiset_ensures();
    assert(Seq::<A>::empty().push(v).to_multiset() =~= Seq::<A>::empty().to_multiset().insert(v));
    assert(Seq::<A>::empty().to_multiset() =~= Multiset::<A>::empty()) by {
        assert(Seq::<A>::empty().to_multiset().len() == 0);
    }
    assert(s.insert(i, v).to_multiset() =~= s.to_multiset().insert(v));
}

/// Decides the key order of two matching lines.
fn line_key_le_exec(a: &String, b: &String) -> (r: bool)
    requires
        is_entry_line(a@, true),
        is_entry_line(b@, true),
    ensures
        r == line_key_le(a@, b@),
{
    let ma = parse_localizable_line(a.as_str(), true).unwrap();
    let mb = parse_localizable_line(b.as_str(), true).unwrap();
    str_le(ma.key.as_str(), mb.key.as_str())
}

/// Sorts matching lines into alphabetical order of their keys.
fn sort_lines_by_key(body: &Vec<String>) -> (r: Vec<String>)
    requires
        forall|j: int| 0 <= j < body@.len() ==> is_entry_line((#[trigger] body@[j])@, true),
    ensures
        line_views(r@).to_multiset() == line_views(body@).to_multiset(),
        sorted_by_key(line_views(r@)),
{
    let mut sorted: Vec<String> = Vec::new();
    let mut i: usize = 0;
    proof {
        line_views(body@).take(0).to_multiset_ensures();
        assert(line_views(body@.take(0)) =~= line_views(sorted@));
        assert(line_views(sorted@).to_multiset() =~= line_views(body@.take(0)).to_multiset());
    }
    while i < body.len()
        invariant
            i <= body@.len(),
            forall|j: int| 0 <= j < body@.len() ==> is_entry_line((#[trigger] body@[j])@, true),
            forall|j: int| 0 <= j < sorted@.len() ==> is_entry_line((#[trigger] sorted@[j])@, true),
            line_views(sorted@).to_multiset() == line_views(body@.take(i as int)).to_multiset(),
            sorted_by_key(line_views(sorted@)),
        decreases body@.len() - i,
    {
        let b = body[i].clone();
        let mut pos: usize = 0;
        while pos < sorted.len() && line_key_le_exec(&sorted[pos], &b)
            invariant
                pos <= sorted@.len(),
                is_entry_line(b@, true),
                forall|j: int|
                    0 <= j < sorted@.len() ==> is_entry_line((#[trigger] sorted@[j])@, true),
                forall|x: int| 0 <= x < pos ==> line_key_le((#[trigger] sorted@[x])@, b@),
            decreases sorted@.len() - pos,
        {
            pos += 1;
        }
        let ghost old_sorted = sorted@;
        sorted.insert(pos, b);
        proof {
            let ov = line_views(old_sorted);
            let nv = line_views(sorted@);
            assert(nv =~= ov.insert(pos as int, b@));
            lemma_insert_to_multiset(ov, pos as int, b@);
            assert(line_views(body@.take(i + 1)) =~= line_views(body@.take(i as int)).push(b@));
            line_views(body@.take(i as int)).to_multiset_ensures();
            assert(nv.to_multiset() =~= line_views(body@.take(i + 1)).to_multiset());
            if (pos as int) < ov.len() {
                assert(!line_key_le(old_sorted[pos as int]@, b@));
                lemma_lex_le_total(entry_key(old_sorted[pos as int]@, true), entry_key(b@, true));
                assert(line_key_le(b@, old_sorted[pos as int]@));
            }
            assert forall|p: int, q: int| 0 <= p < q < nv.len() implies line_key_le(
                #[trigger] nv[p],
                #[trigger] nv[q],
            ) by {
                if p < pos && q < pos {
                    assert(nv[p] == ov[p] && nv[q] == ov[q]);
                } else if p < pos && q == pos {
                    assert(nv[p] == ov[p] && nv[q] == b@);
                } else if p < pos && q > pos {
                    assert(nv[p] == ov[p] && nv[q] == ov[q - 1]);
                } else if p == pos && q > pos {
                    assert(nv[p] == b@ && nv[q] == ov[q - 1]);
                    assert(line_key_le(b@, ov[pos as int]));
                    if q - 1 > pos {
                        assert(line_key_le(ov[pos as int], ov[q - 1]));
                        lemma_lex_le_trans(
                            entry_key(b@, true),
                            entry_key(ov[pos as int], true),
                            entry_key(ov[q - 1], true),
                        );
                    }
                } else {
                    assert(p > pos && q > pos);
                    assert(nv[p] == ov[p - 1] && nv[q] == ov[q - 1]);
                }
            }
        }
        i += 1;
    }
    proof {
        assert(body@.take(body@.len() as int) =~= body@);
    }
    sorted
}

/// Reformats a file, given as its lines.
///
/// Returns the leading content, a blank line, the placeholder lines, a
/// blank line, and the valued lines sorted by key.
pub fn reformat_localizable_lines(lines: &Vec<String>) -> (r: Vec<String>)
    ensures
        reformatted(line_views(lines@), line_views(r@)),
{
    let ghost lv = line_views(lines@);
    let mut head: Vec<String> = Vec::new();
    let mut missing: Vec<String> = Vec::new();
    let mut body: Vec<String> = Vec::new();
    let mut in_body = false;
    let mut i: usize = 0;
    proof {
        assert(lv.take(0) =~= Seq::<Seq<char>>::empty());
        assert(head_lines(lv.take(0)) =~= Seq::<Seq<char>>::empty());
        assert(placeholder_lines(lv.take(0)) =~= Seq::<Seq<char>>::empty());
        assert(value_lines(lv.take(0)) =~= Seq::<Seq<char>>::empty());
    }
    while i < lines.len()
        invariant
            i <= lines@.len(),
            lv == line_views(lines@),
            line_views(head@) == head_lines(lv.take(i as int)),
            line_views(missing@) == placeholder_lines(lv.take(i as int)),
            line_views(body@) == value_lines(lv.take(i as int)),
            in_body == has_entry_line(lv.take(i as int)),
            forall|j: int| 0 <= j < body@.len() ==> is_entry_line((#[trigger] body@[j])@, true),
        decreases lines@.len() - i,
    {
        let ghost prefix = lv.take(i as int);
        let ghost cur = lines@[i as int]@;
        proof {
            assert(lv.take(i + 1) =~= prefix.push(cur));
            assert(lv.take(i + 1).drop_last() =~= prefix);
            lemma_head_lines_push(prefix, cur);
        }
        let line = &lines[i];
        match parse_localizable_line(line.as_str(), true) {
            Some(m) => {
                if m.value.as_str().is_empty() {
                    missing.push(line.clone());
                    proof {
                        assert(line_views(missing@) =~= placeholder_lines(prefix).push(cur));
                        assert(placeholder_lines(lv.take(i + 1)) =~= placeholder_lines(
                            prefix,
                        ).push(cur));
                        assert(value_lines(lv.take(i + 1)) =~= value_lines(prefix));
                    }
                } else {
                    body.push(line.clone());
                    proof {
                        assert(line_views(body@) =~= value_lines(prefix).push(cur));
                        assert(value_lines(lv.take(i + 1)) =~= value_lines(prefix).push(cur));
                        assert(placeholder_lines(lv.take(i + 1)) =~= placeholder_lines(prefix));
                    }
                }
                in_body = true;
                proof {
                    assert(is_entry_line(lv.take(i + 1)[i as int], true));
                    assert(has_entry_line(lv.take(i + 1)));
                }
            },
            None => {
                if !in_body {
                    head.push(line.clone());
                    proof {
                        assert(line_views(head@) =~= head_lines(prefix).push(cur));
                    }
                }
                proof {
                    assert(placeholder_lines(lv.take(i + 1)) =~= placeholder_lines(prefix));
                    assert(value_lines(lv.take(i + 1)) =~= value_lines(prefix));
                    assert(has_entry_line(lv.take(i + 1)) == has_entry_line(prefix)) by {
                        if has_entry_line(lv.take(i + 1)) {
                            let j = choose|j: int|
                                0 <= j < lv.take(i + 1).len() && is_entry_line(
                                    #[trigger] lv.take(i + 1)[j],
                                    true,
                                );
                            if j < i {
                                assert(is_entry_line(prefix[j], true));
                            } else {
                                assert(lv.take(i + 1)[j] == cur);
                            }
                        }
                        if has_entry_line(prefix) {
                            let j = choose|j: int|
                                0 <= j < prefix.len() && is_entry_line(#[trigger] prefix[j], true);
                            assert(is_entry_line(lv.take(i + 1)[j], true));
                        }
                    }
                }
            },
        }
        i += 1;
    }
    proof {
        assert(lv.take(lines@.len() as int) =~= lv);
    }
    let mut sorted = sort_lines_by_key(&body);
    let ghost gsorted = line_views(sorted@);
    let ghost gmissing = line_views(missing@);
    let mut r = head;
    r.push(String::new());
    let mut missing = missing;
    r.append(&mut missing);
    r.push(String::new());
    r.append(&mut sorted);
    proof {
        let h = head_lines(lv);
        let ph = placeholder_lines(lv);
        let vl = value_lines(lv);
        let rv = line_views(r@);
        assert(gmissing == ph);
        assert(rv.len() == h.len() + 1 + ph.len() + 1 + gsorted.len());
        vstd::seq_lib::lemma_multiset_commutative(gsorted, vl);
        assert(gsorted.to_multiset().len() == vl.to_multiset().len());
        gsorted.to_multiset_ensures();
        vl.to_multiset_ensures();
        assert(gsorted.len() == vl.len());
        assert(rv.subrange(0, h.len() as int) =~= h);
        assert(rv[h.len() as int] =~= Seq::<char>::empty());
        assert(rv.subrange(h.len() as int + 1, h.len() + 1 + ph.len() as int) =~= ph);
        assert(rv[h.len() + 1 + ph.len() as int] =~= Seq::<char>::empty());
        assert(rv.subrange(h.len() + 2 + ph.len() as int, rv.len() as int) =~= gsorted);
    }
    r
}

} // verus!
