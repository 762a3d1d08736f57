//! Grouping classified paths by logical group and language.
//!
//! Classified paths are gathered into a two-level mapping: logical group to
//! language to file path.  When two paths claim the same group and
//! language, the later one wins.

use vstd::prelude::*;

use crate::classify::{is_classifiable, logical_group_of, language_of, parse_key_and_language};
use crate::strutil::str_eq;

verus! {

/// One language variant of a logical group, with its file path.
pub struct LanguageFile {
    pub language: String,
    pub path: String,
}

/// One logical group and the file of each of its languages.
pub struct GroupEntry {
    pub key: String,
    pub files: Vec<LanguageFile>,
}

/// All logical groups found in a scan: a mapping from logical group to
/// language to path, held as vectors in order of first appearance.
pub struct GroupedFiles {
    pub groups: Vec<GroupEntry>,
}

/// Whether the language names of `files` are pairwise different.
pub open spec fn langs_wf(files: Seq<LanguageFile>) -> bool {
    forall|p: int, q: int|
        0 <= p < q < files.len() ==> (#[trigger] files[p]).language@ != (
        #[trigger] files[q]).language@
}

/// The path of language `l` among `files`, the later entry winning.
pub open spec fn lang_lookup(files: Seq<LanguageFile>, l: Seq<char>) -> Option<Seq<char>>
    decreases files.len(),
{
    if files.len() == 0 {
        None
    } else if files.last().language@ == l {
        Some(files.last().path@)
    } else {
        lang_lookup(files.drop_last(), l)
    }
}

/// The path of group `g` and language `l` among `groups`.
pub open spec fn group_lookup(groups: Seq<GroupEntry>, g: Seq<char>, l: Seq<char>) -> Option<
    Seq<char>,
>
    decreases groups.len(),
{
    if groups.len() == 0 {
        None
    } else if groups.last().key@ == g {
        lang_lookup(groups.last().files@, l)
    } else {
        group_lookup(groups.drop_last(), g, l)
    }
}

impl GroupedFiles {
    /// Group keys are pairwise different, every group holds at least one
    /// language, and within a group the languages are pairwise different.
    pub open spec fn wf(self) -> bool {
        &&& forall|p: int, q: int|
            0 <= p < q < self.groups@.len() ==> (#[trigger] self.groups@[p]).key@ != (
            #[trigger] self.groups@[q]).key@
        &&& forall|i: int| 0 <= i < self.groups@.len() ==> (#[trigger] self.groups@[i]).files@.len() > 0
        &&& forall|i: int| 0 <= i < self.groups@.len() ==> langs_wf((#[trigger] self.groups@[i]).files@)
    }

    /// The path filed under group `g` and language `l`, if any.
    pub open spec fn spec_lookup(self, g: Seq<char>, l: Seq<char>) -> Option<Seq<char>> {
        group_lookup(self.groups@, g, l)
    }
}

/// What grouping a sequence of candidate paths yields at `(g, l)`: the last
/// path classifying to that group and language, unclassified paths ignored.
pub open spec fn grouped_lookup(paths: Seq<String>, g: Seq<char>, l: Seq<char>) -> Option<Seq<char>>
    decreases paths.len(),
{
    if paths.len() == 0 {
        None
    } else {
        let p = paths.last()@;
        if is_classifiable(p) && logical_group_of(p) == g && language_of(p) == l {
            Some(p)
        } else {
            grouped_lookup(paths.drop_last(), g, l)
        }
    }
}

/// Replacing the entry of a language changes only that language's path.
proof fn lemma_lang_lookup_update(files: Seq<LanguageFile>, li: int, nf: LanguageFile, l: Seq<char>)
    requires
        0 <= li < files.len(),
        nf.language@ == files[li].language@,
        langs_wf(files),
    ensures
        lang_lookup(files.update(li, nf), l) == if l == nf.language@ {
            Some(nf.path@)
        } else {
            lang_lookup(files, l)
        },
    decreases files.len(),
{
    let upd = files.update(li, nf);
    if li == files.len() - 1 {
        assert(upd.last() == nf);
        assert(upd.drop_last() =~= files.drop_last());
    } else {
        assert(upd.last() == files.last());
        assert(upd.drop_last() =~= files.drop_last().update(li, nf));
        assert(langs_wf(files.drop_last()));
        lemma_lang_lookup_update(files.drop_last(), li, nf, l);
        assert(files.last().language@ != nf.language@);
    }
}

/// Appending a language entry changes only that language's path.
proof fn lemma_lang_lookup_push(files: Seq<LanguageFile>, nf: LanguageFile, l: Seq<char>)
    ensures
        lang_lookup(files.push(nf), l) == if l == nf.language@ {
            Some(nf.path@)
        } else {
            lang_lookup(files, l)
        },
{
    assert(files.push(nf).last() == nf);
    assert(files.push(nf).drop_last() =~= files);
}

/// Replacing the entry of a group changes only that group's languages.
proof fn lemma_group_lookup_update(
    groups: Seq<GroupEntry>,
    gi: int,
    ng: GroupEntry,
    g: Seq<char>,
    l: Seq<char>,
)
    requires
        0 <= gi < groups.len(),
        ng.key@ == groups[gi].key@,
        forall|p: int, q: int|
            0 <= p < q < groups.len() ==> (#[trigger] groups[p]).key@ != (
            #[trigger] groups[q]).key@,
    ensures
        group_lookup(groups.update(gi, ng), g, l) == if g == ng.key@ {
            lang_lookup(ng.files@, l)
        } else {
            group_lookup(groups, g, l)
        },
    decreases groups.len(),
{
    let upd = groups.update(gi, ng);
    if gi == groups.len() - 1 {
        assert(upd.last() == ng);
        assert(upd.drop_last() =~= groups.drop_last());
    } else {
        assert(upd.last() == groups.last());
        assert(upd.drop_last() =~= groups.drop_last().update(gi, ng));
        lemma_group_lookup_update(groups.drop_last(), gi, ng, g, l);
        assert(groups.last().key@ != ng.key@);
    }
}

/// Appending a group entry changes only that group's languages.
proof fn lemma_group_lookup_push(groups: Seq<GroupEntry>, ng: GroupEntry, g: Seq<char>, l: Seq<char>)
    ensures
        group_lookup(groups.push(ng), g, l) == if g == ng.key@ {
            lang_lookup(ng.files@, l)
        } else {
            group_lookup(groups, g, l)
        },
{
    assert(groups.push(ng).last() == ng);
    assert(groups.push(ng).drop_last() =~= groups);
}

/// With pairwise different keys, looking up the key of entry `gi` finds
/// exactly that entry's languages.
proof fn lemma_group_lookup_at(groups: Seq<GroupEntry>, gi: int, l: Seq<char>)
    requires
        0 <= gi < groups.len(),
        forall|p: int, q: int|
            0 <= p < q < groups.len() ==> (#[trigger] groups[p]).key@ != (
            #[trigger] groups[q]).key@,
    ensures
        group_lookup(groups, groups[gi].key@, l) == lang_lookup(groups[gi].files@, l),
    decreases groups.len(),
{
    if gi < groups.len() - 1 {
        assert(groups.last().key@ != groups[gi].key@);
        lemma_group_lookup_at(groups.drop_last(), gi, l);
        assert(groups.drop_last()[gi] == groups[gi]);
    }
}

/// A key under which no entry is filed looks up to nothing.
proof fn lemma_group_lookup_absent(groups: Seq<GroupEntry>, g: Seq<char>, l: Seq<char>)
    requires
        forall|j: int| 0 <= j < groups.len() ==> (#[trigger] groups[j]).key@ != g,
    ensures
        group_lookup(groups, g, l) is None,
    decreases groups.len(),
{
    if groups.len() > 0 {
        assert(groups.last().key@ != g);
        assert(forall|j: int|
            0 <= j < groups.drop_last().len() ==> (#[trigger] groups.drop_last()[j]).key@ != g);
        lemma_group_lookup_absent(groups.drop_last(), g, l);
    }
}

/// Appending a candidate path changes the grouping at its own group and
/// language alone, and not at all when the path does not classify.
proof fn lemma_grouped_lookup_push(paths: Seq<String>, p: String, g: Seq<char>, l: Seq<char>)
    ensures
        grouped_lookup(paths.push(p), g, l) == if is_classifiable(p@) && logical_group_of(p@) == g
            && language_of(p@) == l {
            Some(p@)
        } else {
            grouped_lookup(paths, g, l)
        },
{
    assert(paths.push(p).last() == p);
    assert(paths.push(p).drop_last() =~= paths);
}

/// The position of the group named `key` among `groups`, if any.
fn find_group(groups: &Vec<GroupEntry>, key: &str) -> (r: Option<usize>)
    ensures
        match r {
            Some(i) => i < groups@.len() && groups@[i as int].key@ == key@,
            None => forall|j: int| 0 <= j < groups@.len() ==> (#[trigger] groups@[j]).key@ != key@,
        },
{
    let mut i: usize = 0;
    while i < groups.len()
        invariant
            i <= groups@.len(),
            forall|j: int| 0 <= j < i ==> (#[trigger] groups@[j]).key@ != key@,
        decreases groups@.len() - i,
    {
        if str_eq(groups[i].key.as_str(), key) {
            return Some(i);
        }
        i += 1;
    }
    None
}

/// The position of the language named `lang` among `files`, if any.
fn find_language(files: &Vec<LanguageFile>, lang: &str) -> (r: Option<usize>)
    ensures
        match r {
            Some(i) => i < files@.len() && files@[i as int].language@ == lang@,
            None => forall|j: int|
                0 <= j < files@.len() ==> (#[trigger] files@[j]).language@ != lang@,
        },
{
    let mut i: usize = 0;
    while i < files.len()
        invariant
            i <= files@.len(),
            forall|j: int| 0 <= j < i ==> (#[trigger] files@[j]).language@ != lang@,
        decreases files@.len() - i,
    {
        if str_eq(files[i].language.as_str(), lang) {
            return Some(i);
        }
        i += 1;
    }
    None
}

/// Groups candidate file paths by logical group and language.
///
/// Paths that do not follow the convention are dropped; of two paths
/// classifying to the same group and language, the later wins.
pub fn group_files_by_logical_group_and_language(files: Vec<String>) -> (r: GroupedFiles)
    ensures
        r.wf(),
        forall|g: Seq<char>, l: Seq<char>| #![auto] r.spec_lookup(g, l) == grouped_lookup(
            files@,
            g,
            l,
        ),
{
    let mut r = GroupedFiles { groups: Vec::new() };
    let mut i: usize = 0;
    while i < files.len()
        invariant
            i <= files@.len(),
            r.wf(),
            forall|g: Seq<char>, l: Seq<char>| #![auto] r.spec_lookup(g, l) == grouped_lookup(
                files@.take(i as int),
                g,
                l,
            ),
        decreases files@.len() - i,
    {
        let ghost prefix = files@.take(i as int);
        proof {
            assert(files@.take(i + 1) =~= prefix.push(files@[i as int]));
        }
        let path = &files[i];
        match parse_key_and_language(path.as_str()) {
            None => {
                proof {
                    assert forall|g: Seq<char>, l: Seq<char>| #![auto] r.spec_lookup(g, l)
                        == grouped_lookup(files@.take(i + 1), g, l) by {
                        lemma_grouped_lookup_push(prefix, files@[i as int], g, l);
                    }
                }
            },
            Some(kl) => {
                let (key, lang) = kl;
                let ghost gkey = key@;
                let ghost glang = lang@;
                let ghost p = files@[i as int];
                let nf = LanguageFile { language: lang, path: path.clone() };
                let ghost old_groups = r.groups@;
                proof {
                    assert forall|g2: Seq<char>, l2: Seq<char>| #[trigger] group_lookup(
                        old_groups,
                        g2,
                        l2,
                    ) == grouped_lookup(files@.take(i as int), g2, l2) by {
                        assert(r.spec_lookup(g2, l2) == grouped_lookup(
                            files@.take(i as int),
                            g2,
                            l2,
                        ));
                    }
                }
                match find_group(&r.groups, key.as_str()) {
                    Some(gi) => {
                        let ghost old_entry = r.groups@[gi as int];
                        let ghost old_files = old_entry.files@;
                        match find_language(&r.groups[gi].files, nf.language.as_str()) {
                            Some(li) => {
                                proof {
                                    assert(old_files[li as int].language@ == glang);
                                }
                                r.groups[gi].files[li] = nf;
                                proof {
                                    let ng = r.groups@[gi as int];
                                    assert(ng.key == old_entry.key);
                                    assert(ng.files@ =~= old_files.update(li as int, nf));
                                    assert(r.groups@ =~= old_groups.update(gi as int, ng));
                                    assert forall|x: int|
                                        0 <= x < ng.files@.len() implies (#[trigger] ng.files@[
                                        x
                                    ]).language@ == old_files[x].language@ by {}
                                    assert(langs_wf(ng.files@));
                                    assert forall|x: int|
                                        0 <= x < r.groups@.len() implies (#[trigger] r.groups@[
                                        x
                                    ]).key@ == old_groups[x].key@ by {}
                                    assert(r.wf());
                                    assert forall|g: Seq<char>, l: Seq<char>|
                                        #![auto]
                                        r.spec_lookup(g, l) == grouped_lookup(
                                        files@.take(i + 1),
                                        g,
                                        l,
                                    ) by {
                                        let tprev = grouped_lookup(files@.take(i as int), g, l);
                                        lemma_grouped_lookup_push(prefix, p, g, l);
                                        lemma_group_lookup_update(old_groups, gi as int, ng, g, l);
                                        lemma_lang_lookup_update(old_files, li as int, nf, l);
                                        assert(files@.take(i + 1) == prefix.push(p));
                                        assert(r.groups@ == old_groups.update(gi as int, ng));
                                        assert(ng.files@ == old_files.update(li as int, nf));
                                        assert(is_classifiable(p@));
                                        assert(logical_group_of(p@) == gkey);
                                        assert(language_of(p@) == glang);
                                        assert(nf.path@ == p@);
                                        assert(nf.language@ == glang);
                                        assert(ng.key@ == gkey);
                                        if g == gkey && l == glang {
                                            assert(grouped_lookup(files@.take(i + 1), g, l)
                                                == Some(p@));
                                            assert(r.spec_lookup(g, l) == Some(nf.path@));
                                        } else if g == gkey {
                                            lemma_group_lookup_at(old_groups, gi as int, l);
                                            assert(grouped_lookup(files@.take(i + 1), g, l)
                                                == tprev);
                                            assert(tprev == group_lookup(old_groups, g, l));
                                            assert(r.spec_lookup(g, l) == lang_lookup(
                                                old_files,
                                                l,
                                            ));
                                        } else {
                                            assert(grouped_lookup(files@.take(i + 1), g, l)
                                                == tprev);
                                            assert(tprev == group_lookup(old_groups, g, l));
                                            assert(r.spec_lookup(g, l) == group_lookup(
                                                old_groups,
                                                g,
                                                l,
                                            ));
                                        }
                                    }
                                }
                            },
                            None => {
                                r.groups[gi].files.push(nf);
                                proof {
                                    let ng = r.groups@[gi as int];
                                    assert(ng.key == old_entry.key);
                                    assert(ng.files@ =~= old_files.push(nf));
                                    assert(r.groups@ =~= old_groups.update(gi as int, ng));
                                    assert forall|pp: int, qq: int|
                                        0 <= pp < qq < ng.files@.len() implies (
                                    #[trigger] ng.files@[pp]).language@ != (#[trigger] ng.files@[
                                        qq
                                    ]).language@ by {
                                        if qq == ng.files@.len() - 1 {
                                            assert(old_files[pp].language@ != glang);
                                        } else {
                                            assert(old_files[pp].language@ != old_files[
                                                qq
                                            ].language@);
                                        }
                                    }
                                    assert(langs_wf(ng.files@));
                                    assert forall|x: int|
                                        0 <= x < r.groups@.len() implies (#[trigger] r.groups@[
                                        x
                                    ]).key@ == old_groups[x].key@ by {}
                                    assert(r.wf());
                                    assert forall|g: Seq<char>, l: Seq<char>|
                                        #![auto]
                                        r.spec_lookup(g, l) == grouped_lookup(
                                        files@.take(i + 1),
                                        g,
                                        l,
                                    ) by {
                                        let tprev = grouped_lookup(files@.take(i as int), g, l);
                                        lemma_grouped_lookup_push(prefix, p, g, l);
                                        lemma_group_lookup_update(old_groups, gi as int, ng, g, l);
                                        lemma_lang_lookup_push(old_files, nf, l);
                                        if g == gkey && !(g == gkey && l == glang) {
                                            lemma_group_lookup_at(old_groups, gi as int, l);
                                        }
                                    }
                                }
                            },
                        }
                    },
                    None => {
                        let mut entry_files: Vec<LanguageFile> = Vec::new();
                        entry_files.push(nf);
                        let ng = GroupEntry { key, files: entry_files };
                        r.groups.push(ng);
                        proof {
                            let ng2 = r.groups@.last();
                            assert(r.groups@ == old_groups.push(ng2));
                            assert forall|g: Seq<char>, l: Seq<char>| #![auto] r.spec_lookup(g, l)
                                == grouped_lookup(files@.take(i + 1), g, l) by {
                                let tprev = grouped_lookup(files@.take(i as int), g, l);
                                lemma_grouped_lookup_push(prefix, p, g, l);
                                lemma_group_lookup_push(old_groups, ng2, g, l);
                                assert(files@.take(i + 1) == prefix.push(p));
                                assert(r.spec_lookup(g, l) == group_lookup(
                                    old_groups.push(ng2),
                                    g,
                                    l,
                                ));
                                assert(ng2.key@ == gkey);
                                assert(nf.path@ == p@);
                                assert(nf.language@ == glang);
                                if g == gkey {
                                    assert(ng2.files@.last() == nf);
                                    assert(ng2.files@.drop_last() =~= Seq::<LanguageFile>::empty());
                                    if l == glang {
                                        assert(r.spec_lookup(g, l) == Some(nf.path@));
                                        assert(grouped_lookup(files@.take(i + 1), g, l) == Some(
                                            p@,
                                        ));
                                    } else {
                                        lemma_group_lookup_absent(old_groups, g, l);
                                        assert(tprev == group_lookup(old_groups, g, l));
                                        assert(lang_lookup(Seq::<LanguageFile>::empty(), l)
                                            is None);
                                        assert(lang_lookup(ng2.files@.drop_last(), l) is None);
                                        assert(r.spec_lookup(g, l) is None);
                                        assert(grouped_lookup(files@.take(i + 1), g, l) == tprev);
                                    }
                                } else {
                                    assert(tprev == group_lookup(old_groups, g, l));
                                    assert(r.spec_lookup(g, l) == group_lookup(old_groups, g, l));
                                    assert(grouped_lookup(files@.take(i + 1), g, l) == tprev);
                                }
                            }
                        }
                    },
                }
            },
        }
        i += 1;
    }
    proof {
        assert(files@.take(files@.len() as int) =~= files@);
    }
    r
}

} // verus!
