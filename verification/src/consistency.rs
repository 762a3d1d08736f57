//! The key-consistency check of one logical group.
//!
//! Every language variant of a group should hold the same key set.  The
//! check computes the union of all variants' keys and, per file, the keys
//! missing from it relative to that union.

use vstd::prelude::*;

use crate::parsing::{line_key_set, line_views, extract_keys};
use crate::strutil::{
    contains_string, string_set, vec_contains_str, lemma_string_set_push, distinct_views,
};

verus! {

/// The outcome of reading one file, handed in by the caller: the file's
/// lines, or a description of the failure.
pub enum FileRead {
    Lines(Vec<String>),
    Failed(String),
}

/// One file of a logical group: its path and the outcome of reading it.
pub struct LocalizableFile {
    pub path: String,
    pub read: FileRead,
}

/// The keys a file misses, keyed by the file's path.
pub struct Discrepancy {
    pub path: String,
    pub missing_keys: Vec<String>,
}

/// The result of checking one logical group.
pub enum ResultCheckKeys {
    Equatable(),
    NonEquatable(Vec<Discrepancy>),
    Error(String),
}

/// The key set of one file: its lines' keys under the permissive grammar,
/// or the empty set where the read failed.
pub open spec fn file_key_set(f: LocalizableFile) -> Set<Seq<char>> {
    match f.read {
        FileRead::Lines(lines) => line_key_set(line_views(lines@)),
        FileRead::Failed(_) => Set::empty(),
    }
}

/// The union of the key sets of all files of a group.
pub open spec fn union_key_set(files: Seq<LocalizableFile>) -> Set<Seq<char>> {
    Set::new(
        |k: Seq<char>|
            exists|i: int| 0 <= i < files.len() && #[trigger] file_key_set(files[i]).contains(k),
    )
}

/// The keys file `f` misses relative to the union of its group.
pub open spec fn missing_key_set(f: LocalizableFile, files: Seq<LocalizableFile>) -> Set<Seq<char>> {
    union_key_set(files).difference(file_key_set(f))
}

/// Whether some file of the group could not be read.
pub open spec fn has_failed_read(files: Seq<LocalizableFile>) -> bool {
    exists|i: int| 0 <= i < files.len() && (#[trigger] files[i].read) is Failed
}

/// The message reported when a file of the group could not be read.
pub open spec fn read_error_message(path: Seq<char>, err: Seq<char>) -> Seq<char> {
    "Error reading file \""@ + path + "\": "@ + err
}

/// Renders the report of a failed read.
fn render_read_error(path: &str, err: &str) -> (r: String)
    ensures
        r@ == read_error_message(path@, err@),
{
    let mut r = String::from_str("Error reading file \"");
    r.append(path);
    r.append("\": ");
    r.append(err);
    proof {
        assert(r@ =~= read_error_message(path@, err@));
    }
    r
}

/// Checks the key consistency of one logical group.
///
/// Returns `Error` with the first failed read's report when any read
/// failed; otherwise `Equatable` when every file already holds every key of
/// the union, and `NonEquatable` with one entry per file — the file's path
/// and its missing keys, without duplicates — when some file falls short.
pub fn check_keys_consistency(files: &Vec<LocalizableFile>) -> (r: ResultCheckKeys)
    ensures
        match r {
            ResultCheckKeys::Error(msg) => {
                &&& has_failed_read(files@)
                &&& exists|i: int|
                    #![auto]
                    {
                        &&& 0 <= i < files@.len()
                        &&& files@[i].read is Failed
                        &&& (forall|j: int| 0 <= j < i ==> !(files@[j].read is Failed))
                        &&& msg@ == read_error_message(
                            files@[i].path@,
                            files@[i].read->Failed_0@,
                        )
                    }
            },
            ResultCheckKeys::Equatable() => {
                &&& !has_failed_read(files@)
                &&& forall|i: int|
                    0 <= i < files@.len() ==> #[trigger] missing_key_set(files@[i], files@)
                        =~= Set::empty()
            },
            ResultCheckKeys::NonEquatable(d) => {
                &&& !has_failed_read(files@)
                &&& exists|i: int|
                    0 <= i < files@.len() && #[trigger] missing_key_set(files@[i], files@)
                        != Set::<Seq<char>>::empty()
                &&& d@.len() == files@.len()
                &&& forall|i: int| 0 <= i < d@.len() ==> #[trigger] d@[i].path@ == files@[i].path@
                &&& forall|i: int|
                    0 <= i < d@.len() ==> #[trigger] string_set(d@[i].missing_keys@)
                        == missing_key_set(files@[i], files@)
                &&& forall|i: int|
                    0 <= i < d@.len() ==> #[trigger] distinct_views(d@[i].missing_keys@)
            },
        },
{
    // Extract each file's keys; report the first failed read at once.
    let mut key_sets: Vec<Vec<String>> = Vec::new();
    let mut idx: usize = 0;
    while idx < files.len()
        invariant
            idx <= files@.len(),
            key_sets@.len() == idx,
            forall|j: int| 0 <= j < idx ==> !((#[trigger] files@[j].read) is Failed),
            forall|j: int|
                0 <= j < idx ==> #[trigger] string_set(key_sets@[j]@) == file_key_set(files@[j]),
            forall|j: int| 0 <= j < idx ==> #[trigger] distinct_views(key_sets@[j]@),
        decreases files@.len() - idx,
    {
        match &files[idx].read {
            FileRead::Lines(lines) => {
                let ks = extract_keys(lines);
                key_sets.push(ks);
            },
            FileRead::Failed(err) => {
                let msg = render_read_error(files[idx].path.as_str(), err.as_str());
                return ResultCheckKeys::Error(msg);
            },
        }
        idx += 1;
    }
    // The union of all keys, in order of first appearance.
    let mut all_keys: Vec<String> = Vec::new();
    let mut i: usize = 0;
    while i < key_sets.len()
        invariant
            i <= key_sets@.len(),
            key_sets@.len() == files@.len(),
            forall|j: int|
                0 <= j < files@.len() ==> #[trigger] string_set(key_sets@[j]@) == file_key_set(
                    files@[j],
                ),
            distinct_views(all_keys@),
            forall|k: Seq<char>|
                #[trigger] contains_string(all_keys@, k) ==> union_key_set(files@).contains(k),
            forall|w: int|
                0 <= w < i ==> #[trigger] file_key_set(files@[w]).subset_of(
                    string_set(all_keys@),
                ),
        decreases key_sets@.len() - i,
    {
        let ghost prev_covered = i as int;
        let mut w: usize = 0;
        while w < key_sets[i].len()
            invariant
                i < key_sets@.len(),
                key_sets@.len() == files@.len(),
                w <= key_sets@[i as int]@.len(),
                forall|j: int|
                    0 <= j < files@.len() ==> #[trigger] string_set(key_sets@[j]@)
                        == file_key_set(files@[j]),
                distinct_views(all_keys@),
                forall|k: Seq<char>|
                    #[trigger] contains_string(all_keys@, k) ==> union_key_set(files@).contains(
                        k,
                    ),
                forall|v: int|
                    0 <= v < prev_covered ==> #[trigger] file_key_set(files@[v]).subset_of(
                        string_set(all_keys@),
                    ),
                forall|v: int|
                    0 <= v < w ==> #[trigger] contains_string(
                        all_keys@,
                        key_sets@[i as int]@[v]@,
                    ),
            decreases key_sets@[i as int]@.len() - w,
        {
            let key = &key_sets[i][w];
            let ghost old_all = all_keys@;
            let present = vec_contains_str(&all_keys, key.as_str());
            if !present {
                proof {
                    lemma_string_set_push(all_keys@, *key);
                    assert(contains_string(key_sets@[i as int]@, key@)) by {
                        assert(key_sets@[i as int]@[w as int]@ == key@);
                    }
                    assert(string_set(key_sets@[i as int]@).contains(key@));
                    assert(file_key_set(files@[i as int]).contains(key@));
                    assert(union_key_set(files@).contains(key@));
                }
                let k = key.clone();
                all_keys.push(k);
                proof {
                    assert(all_keys@ =~= old_all.push(*key));
                    assert(string_set(all_keys@).contains(key@));
                    assert forall|k2: Seq<char>| #[trigger] contains_string(all_keys@, k2) implies
                        contains_string(old_all, k2) || k2 == key@ by {
                        let v = choose|v: int| 0 <= v < all_keys@.len() && all_keys@[v]@ == k2;
                        if v < old_all.len() {
                            assert(old_all[v]@ == k2);
                        }
                    }
                    assert forall|k2: Seq<char>| #[trigger] contains_string(old_all, k2) implies
                        contains_string(all_keys@, k2) by {
                        let v = choose|v: int| 0 <= v < old_all.len() && old_all[v]@ == k2;
                        assert(all_keys@[v]@ == k2);
                    }
                    assert forall|k2: Seq<char>| #[trigger] contains_string(all_keys@, k2) implies
                        union_key_set(files@).contains(k2) by {
                        if contains_string(old_all, k2) {
                        } else {
                            assert(k2 == key@);
                        }
                    }
                    assert forall|v: int|
                        0 <= v < prev_covered implies #[trigger] file_key_set(
                        files@[v],
                    ).subset_of(string_set(all_keys@)) by {
                        assert(file_key_set(files@[v]).subset_of(string_set(old_all)));
                        assert forall|k2: Seq<char>|
                            file_key_set(files@[v]).contains(k2) implies string_set(
                            all_keys@,
                        ).contains(k2) by {
                            assert(string_set(old_all).contains(k2));
                            assert(contains_string(old_all, k2));
                        }
                    }
                }
            }
            proof {
                assert(key@ == key_sets@[i as int]@[w as int]@);
                assert(contains_string(all_keys@, key@));
                assert forall|v: int| 0 <= v < w + 1 implies #[trigger] contains_string(
                    all_keys@,
                    key_sets@[i as int]@[v]@,
                ) by {
                    if v < w {
                        assert(contains_string(old_all, key_sets@[i as int]@[v]@));
                    } else {
                        assert(key_sets@[i as int]@[v]@ == key@);
                    }
                }
            }
            w += 1;
        }
        proof {
            assert forall|v: int| 0 <= v < i + 1 implies #[trigger] file_key_set(
                files@[v],
            ).subset_of(string_set(all_keys@)) by {
                if v == i {
                    assert forall|k: Seq<char>|
                        file_key_set(files@[v]).contains(k) implies string_set(
                        all_keys@,
                    ).contains(k) by {
                        assert(string_set(key_sets@[v]@).contains(k));
                        let u = choose|u: int|
                            0 <= u < key_sets@[v]@.len() && key_sets@[v]@[u]@ == k;
                        assert(contains_string(all_keys@, key_sets@[v]@[u]@));
                    }
                }
            }
        }
        i += 1;
    }
    proof {
        assert(string_set(all_keys@) =~= union_key_set(files@)) by {
            assert forall|k: Seq<char>| union_key_set(files@).contains(k) implies string_set(
                all_keys@,
            ).contains(k) by {
                let v = choose|v: int|
                    0 <= v < files@.len() && #[trigger] file_key_set(files@[v]).contains(k);
                assert(file_key_set(files@[v]).subset_of(string_set(all_keys@)));
            }
        }
    }
    // Per file, the keys of the union it misses.
    let mut discrepancies: Vec<Discrepancy> = Vec::new();
    let mut any_missing = false;
    let mut f: usize = 0;
    while f < files.len()
        invariant
            f <= files@.len(),
            key_sets@.len() == files@.len(),
            forall|j: int|
                0 <= j < files@.len() ==> #[trigger] string_set(key_sets@[j]@) == file_key_set(
                    files@[j],
                ),
            distinct_views(all_keys@),
            string_set(all_keys@) == union_key_set(files@),
            discrepancies@.len() == f,
            forall|j: int|
                0 <= j < f ==> #[trigger] discrepancies@[j].path@ == files@[j].path@,
            forall|j: int|
                0 <= j < f ==> #[trigger] string_set(discrepancies@[j].missing_keys@)
                    == missing_key_set(files@[j], files@),
            forall|j: int|
                0 <= j < f ==> #[trigger] distinct_views(discrepancies@[j].missing_keys@),
            any_missing == exists|j: int|
                0 <= j < f && (#[trigger] discrepancies@[j].missing_keys@).len() > 0,
        decreases files@.len() - f,
    {
        let mut missing: Vec<String> = Vec::new();
        let mut w: usize = 0;
        while w < all_keys.len()
            invariant
                f < files@.len(),
                key_sets@.len() == files@.len(),
                w <= all_keys@.len(),
                string_set(key_sets@[f as int]@) == file_key_set(files@[f as int]),
                distinct_views(all_keys@),
                distinct_views(missing@),
                forall|k: Seq<char>|
                    #[trigger] contains_string(missing@, k) <==> (contains_string(
                        all_keys@.take(w as int),
                        k,
                    ) && !file_key_set(files@[f as int]).contains(k)),
            decreases all_keys@.len() - w,
        {
            let ghost old_missing = missing@;
            let ghost fset = file_key_set(files@[f as int]);
            let key = &all_keys[w];
            let in_file = vec_contains_str(&key_sets[f], key.as_str());
            proof {
                if in_file {
                    assert(string_set(key_sets@[f as int]@).contains(key@));
                    assert(fset.contains(key@));
                } else {
                    assert(!fset.contains(key@)) by {
                        if fset.contains(key@) {
                            assert(string_set(key_sets@[f as int]@).contains(key@));
                        }
                    }
                    if contains_string(missing@, key@) {
                        let prior = all_keys@.take(w as int);
                        let v = choose|v: int| 0 <= v < prior.len() && prior[v]@ == key@;
                        assert(all_keys@[v]@ == all_keys@[w as int]@);
                        assert(false);
                    }
                }
            }
            if !in_file {
                let k = key.clone();
                missing.push(k);
                proof {
                    assert(missing@ =~= old_missing.push(*key));
                }
            }
            proof {
                let taken = all_keys@.take(w + 1);
                let prior = all_keys@.take(w as int);
                assert(taken =~= prior.push(all_keys@[w as int]));
                assert(taken[w as int]@ == key@);
                assert forall|k: Seq<char>|
                    #[trigger] contains_string(missing@, k) <==> (contains_string(taken, k)
                        && !fset.contains(k)) by {
                    // What the new missing list holds.
                    if contains_string(missing@, k) {
                        let v = choose|v: int| 0 <= v < missing@.len() && missing@[v]@ == k;
                        if v < old_missing.len() {
                            assert(old_missing[v]@ == k);
                            assert(contains_string(old_missing, k));
                            let u = choose|u: int| 0 <= u < prior.len() && prior[u]@ == k;
                            assert(taken[u]@ == k);
                        } else {
                            assert(k == key@);
                        }
                        assert(contains_string(taken, k) && !fset.contains(k));
                    }
                    // What it must hold.
                    if contains_string(taken, k) && !fset.contains(k) {
                        let v = choose|v: int| 0 <= v < taken.len() && taken[v]@ == k;
                        if v < w {
                            assert(prior[v]@ == k);
                            assert(contains_string(prior, k));
                            assert(contains_string(old_missing, k));
                            let u = choose|u: int|
                                0 <= u < old_missing.len() && old_missing[u]@ == k;
                            assert(missing@[u]@ == k);
                        } else {
                            assert(k == key@);
                            assert(!in_file);
                            assert(missing@[missing@.len() - 1]@ == k);
                        }
                        assert(contains_string(missing@, k));
                    }
                }
            }
            w += 1;
        }
        proof {
            assert(all_keys@.take(all_keys@.len() as int) =~= all_keys@);
            assert forall|k: Seq<char>| contains_string(all_keys@, k) implies string_set(
                all_keys@,
            ).contains(k) by {}
            assert(string_set(missing@) =~= missing_key_set(files@[f as int], files@));
        }
        let ghost old_d = discrepancies@;
        let ghost old_any = any_missing;
        if missing.len() > 0 {
            any_missing = true;
        }
        let path = files[f].path.clone();
        discrepancies.push(Discrepancy { path, missing_keys: missing });
        proof {
            assert(discrepancies@[f as int].missing_keys@.len() > 0 ==> any_missing);
            if any_missing {
                if old_any {
                    let j = choose|j: int|
                        0 <= j < old_d.len() && (#[trigger] old_d[j].missing_keys@).len() > 0;
                    assert(discrepancies@[j].missing_keys@.len() > 0);
                } else {
                    assert(discrepancies@[f as int].missing_keys@.len() > 0);
                }
            } else {
                if exists|j: int|
                    0 <= j <= f && (#[trigger] discrepancies@[j].missing_keys@).len() > 0 {
                    let j = choose|j: int|
                        0 <= j <= f && (#[trigger] discrepancies@[j].missing_keys@).len() > 0;
                    if j < f {
                        assert(old_d[j].missing_keys@.len() > 0);
                    }
                    assert(false);
                }
            }
        }
        f += 1;
    }
    if any_missing {
        proof {
            let j = choose|j: int|
                0 <= j < discrepancies@.len() && (#[trigger] discrepancies@[j].missing_keys@).len()
                    > 0;
            let mk = discrepancies@[j].missing_keys@;
            let first = mk[0]@;
            assert(contains_string(mk, first)) by {
                assert(mk[0]@ == first);
            }
            assert(string_set(mk).contains(first));
            assert(missing_key_set(files@[j], files@).contains(first));
        }
        ResultCheckKeys::NonEquatable(discrepancies)
    } else {
        proof {
            assert forall|i2: int|
                0 <= i2 < files@.len() implies #[trigger] missing_key_set(files@[i2], files@)
                =~= Set::empty() by {
                assert(string_set(discrepancies@[i2].missing_keys@) == missing_key_set(
                    files@[i2],
                    files@,
                ));
                assert(discrepancies@[i2].missing_keys@.len() == 0);
                assert forall|k: Seq<char>|
                    !string_set(discrepancies@[i2].missing_keys@).contains(k) by {
                    if contains_string(discrepancies@[i2].missing_keys@, k) {
                        let v = choose|v: int|
                            0 <= v < discrepancies@[i2].missing_keys@.len() && discrepancies@[
                                i2
                            ].missing_keys@[v]@ == k;
                        assert(false);
                    }
                }
            }
        }
        ResultCheckKeys::Equatable()
    }
}

/// The check is insensitive to file order: two groups holding the same
/// files, in any order, share the union of keys, and every file misses the
/// same keys relative to either.
pub proof fn lemma_check_order_irrelevant(files1: Seq<LocalizableFile>, files2: Seq<LocalizableFile>)
    requires
        files1.to_multiset() == files2.to_multiset(),
    ensures
        union_key_set(files1) == union_key_set(files2),
        forall|f: LocalizableFile| #[trigger] missing_key_set(f, files1) == missing_key_set(
            f,
            files2,
        ),
{
    files1.to_multiset_ensures();
    files2.to_multiset_ensures();
    assert forall|k: Seq<char>| union_key_set(files1).contains(k) implies union_key_set(
        files2,
    ).contains(k) by {
        let i = choose|i: int|
            0 <= i < files1.len() && #[trigger] file_key_set(files1[i]).contains(k);
        let f = files1[i];
        assert(files1.contains(f));
        assert(files1.to_multiset().count(f) > 0);
        assert(files2.to_multiset().count(f) > 0);
        assert(files2.contains(f));
        let j = choose|j: int| 0 <= j < files2.len() && files2[j] == f;
        assert(file_key_set(files2[j]).contains(k));
    }
    assert forall|k: Seq<char>| union_key_set(files2).contains(k) implies union_key_set(
        files1,
    ).contains(k) by {
        let i = choose|i: int|
            0 <= i < files2.len() && #[trigger] file_key_set(files2[i]).contains(k);
        let f = files2[i];
        assert(files2.contains(f));
        assert(files2.to_multiset().count(f) > 0);
        assert(files1.to_multiset().count(f) > 0);
        assert(files1.contains(f));
        let j = choose|j: int| 0 <= j < files1.len() && files1[j] == f;
        assert(file_key_set(files1[j]).contains(k));
    }
    assert(union_key_set(files1) =~= union_key_set(files2));
    assert forall|f: LocalizableFile| #[trigger] missing_key_set(f, files1) == missing_key_set(
        f,
        files2,
    ) by {
        assert(missing_key_set(f, files1) =~= missing_key_set(f, files2));
    }
}

/// A group whose files all hold one and the same key set misses nothing:
/// the check of such a group returns `Equatable`.
pub proof fn lemma_identical_key_sets_consistent(files: Seq<LocalizableFile>)
    requires
        forall|i: int, j: int|
            0 <= i < files.len() && 0 <= j < files.len() ==> file_key_set(#[trigger] files[i])
                == file_key_set(#[trigger] files[j]),
    ensures
        forall|i: int|
            0 <= i < files.len() ==> #[trigger] missing_key_set(files[i], files) =~= Set::empty(),
{
    assert forall|i: int|
        0 <= i < files.len() implies #[trigger] missing_key_set(files[i], files)
        =~= Set::empty() by {
        assert forall|k: Seq<char>| !missing_key_set(files[i], files).contains(k) by {
            if union_key_set(files).contains(k) {
                let j = choose|j: int|
                    0 <= j < files.len() && #[trigger] file_key_set(files[j]).contains(k);
                assert(file_key_set(files[i]) == file_key_set(files[j]));
                assert(file_key_set(files[i]).contains(k));
            }
        }
        assert(missing_key_set(files[i], files) =~= Set::empty());
    }
}

} // verus!
