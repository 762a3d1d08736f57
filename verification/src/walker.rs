//! The traversal logic of the directory scan.
//!
//! The walker works on an in-memory picture of a directory tree, read
//! beforehand by the caller.  It collects the path of every file whose
//! extension is accepted, descending into every subdirectory whose name is
//! not excluded.  Exclusion goes by the directory's own name alone, at any
//! depth; extensions filter files alone, never directories.

use vstd::prelude::*;

use crate::strutil::{contains_string, vec_contains_str};

verus! {

/// One entry of a directory tree: a file, or a directory with its entries.
pub enum FsNode {
    File { name: String },
    Dir { name: String, entries: Vec<FsNode> },
}

/// The extension of a file name: what follows the last dot, where a dot
/// after the first character exists.  A name without such a dot, or with
/// its only dot at the front, has none.
pub open spec fn extension_of(name: Seq<char>) -> Option<Seq<char>> {
    if exists|i: int| 0 < i < name.len() && name[i] == '.' {
        let d = choose|d: int|
            0 < d < name.len() && name[d] == '.' && (forall|j: int|
                d < j < name.len() ==> name[j] != '.');
        Some(name.subrange(d + 1, name.len() as int))
    } else {
        None
    }
}

/// Whether a file of this name is collected: its extension exists and is
/// accepted.
pub open spec fn ext_accepted(name: Seq<char>, exts: Seq<String>) -> bool {
    match extension_of(name) {
        Some(e) => contains_string(exts, e),
        None => false,
    }
}

/// The paths that walking one entry under `dir` yields.
pub open spec fn walk_node_spec(
    node: FsNode,
    dir: Seq<char>,
    exts: Seq<String>,
    excl: Seq<String>,
) -> Seq<Seq<char>>
    decreases node,
{
    match node {
        FsNode::File { name } => {
            if ext_accepted(name@, exts) {
                seq![dir + seq!['/'] + name@]
            } else {
                Seq::empty()
            }
        },
        FsNode::Dir { name, entries } => {
            if contains_string(excl, name@) {
                Seq::empty()
            } else {
                walk_nodes_spec(entries@, dir + seq!['/'] + name@, exts, excl)
            }
        },
    }
}

/// The paths that walking a directory's entries under `dir` yields, in
/// entry order.
pub open spec fn walk_nodes_spec(
    nodes: Seq<FsNode>,
    dir: Seq<char>,
    exts: Seq<String>,
    excl: Seq<String>,
) -> Seq<Seq<char>>
    decreases nodes,
{
    if nodes.len() == 0 {
        Seq::empty()
    } else {
        walk_nodes_spec(nodes.drop_last(), dir, exts, excl) + walk_node_spec(
            nodes.last(),
            dir,
            exts,
            excl,
        )
    }
}

/// The size of one entry, counting itself and everything below it.
pub open spec fn node_size(node: FsNode) -> nat
    decreases node,
{
    match node {
        FsNode::File { .. } => 1,
        FsNode::Dir { entries, .. } => 1 + nodes_size(entries@),
    }
}

/// The summed size of a directory's entries.
pub open spec fn nodes_size(nodes: Seq<FsNode>) -> nat
    decreases nodes,
{
    if nodes.len() == 0 {
        0
    } else {
        node_size(nodes.last()) + nodes_size(nodes.drop_last())
    }
}

/// Every entry weighs no more than the whole list.
proof fn lemma_nodes_size_at(nodes: Seq<FsNode>, i: int)
    requires
        0 <= i < nodes.len(),
    ensures
        node_size(nodes[i]) <= nodes_size(nodes),
    decreases nodes.len(),
{
    if i == nodes.len() - 1 {
    } else {
        lemma_nodes_size_at(nodes.drop_last(), i);
    }
}

/// The extension of a file name, as the walker decides it.
fn extension_exec(name: &str) -> (r: Option<String>)
    ensures
        match r {
            Some(e) => extension_of(name@) == Some(e@),
            None => extension_of(name@) is None,
        },
{
    let n = name.unicode_len();
    let mut i = n;
    while i > 1
        invariant
            i <= n,
            n == name@.len(),
            forall|j: int| i <= j < n ==> name@[j] != '.',
        decreases i,
    {
        i -= 1;
        if name.get_char(i) == '.' {
            proof {
                let d = choose|d: int|
                    0 < d < name@.len() && name@[d] == '.' && (forall|j: int|
                        d < j < name@.len() ==> name@[j] != '.');
                assert(0 < i < name@.len() && name@[i as int] == '.' && (forall|j: int|
                    i < j < name@.len() ==> name@[j] != '.'));
                if d < i {
                    assert(name@[i as int] != '.');
                }
                if i < d {
                    assert(name@[d] != '.');
                }
            }
            return Some(name.substring_char(i + 1, n).to_owned());
        }
    }
    proof {
        if exists|w: int| 0 < w < name@.len() && name@[w] == '.' {
            let w = choose|w: int| 0 < w < name@.len() && name@[w] == '.';
            assert(name@[w] != '.');
        }
    }
    None
}

/// Joins a directory path and an entry name with a slash.
fn join_path(dir: &str, name: &str) -> (r: String)
    ensures
        r@ == dir@ + seq!['/'] + name@,
{
    let mut r = dir.to_owned();
    r.append("/");
    r.append(name);
    proof {
        reveal_strlit("/");
        assert("/"@ =~= seq!['/']);
        assert(r@ =~= dir@ + seq!['/'] + name@);
    }
    r
}

/// Walks a directory's entries, collecting the path of every file with an
/// accepted extension and descending into every directory whose name is
/// not excluded.
pub fn walk_files(
    entries: &Vec<FsNode>,
    dir: &str,
    extensions: &Vec<String>,
    exclude: &Vec<String>,
) -> (r: Vec<String>)
    ensures
        crate::parsing::line_views(r@) == walk_nodes_spec(entries@, dir@, extensions@, exclude@),
    decreases nodes_size(entries@),
{
    let mut r: Vec<String> = Vec::new();
    let mut i: usize = 0;
    proof {
        assert(entries@.take(0) =~= Seq::<FsNode>::empty());
        assert(crate::parsing::line_views(r@) =~= Seq::<Seq<char>>::empty());
    }
    while i < entries.len()
        invariant
            i <= entries@.len(),
            crate::parsing::line_views(r@) == walk_nodes_spec(
                entries@.take(i as int),
                dir@,
                extensions@,
                exclude@,
            ),
        decreases entries@.len() - i,
    {
        let ghost prefix = entries@.take(i as int);
        proof {
            assert(entries@.take(i + 1).drop_last() =~= prefix);
            assert(entries@.take(i + 1).last() == entries@[i as int]);
        }
        match &entries[i] {
            FsNode::File { name } => {
                let ghost old_views = crate::parsing::line_views(r@);
                let ghost cur = entries@[i as int];
                let mut pushed = false;
                match extension_exec(name.as_str()) {
                    Some(e) => {
                        if vec_contains_str(extensions, e.as_str()) {
                            let p = join_path(dir, name.as_str());
                            r.push(p);
                            pushed = true;
                        }
                    },
                    None => {},
                }
                proof {
                    assert(cur == (FsNode::File { name: *name }));
                    assert(walk_nodes_spec(entries@.take(i + 1), dir@, extensions@, exclude@)
                        == walk_nodes_spec(prefix, dir@, extensions@, exclude@) + walk_node_spec(
                        cur,
                        dir@,
                        extensions@,
                        exclude@,
                    ));
                    if pushed {
                        assert(ext_accepted(name@, extensions@));
                        assert(walk_node_spec(cur, dir@, extensions@, exclude@) == seq![
                            dir@ + seq!['/'] + name@,
                        ]);
                        assert(crate::parsing::line_views(r@) =~= old_views.push(
                            dir@ + seq!['/'] + name@,
                        ));
                        assert(old_views + seq![dir@ + seq!['/'] + name@] =~= old_views.push(
                            dir@ + seq!['/'] + name@,
                        ));
                    } else {
                        assert(!ext_accepted(name@, extensions@));
                        assert(walk_node_spec(cur, dir@, extensions@, exclude@)
                            == Seq::<Seq<char>>::empty());
                        assert(old_views + Seq::<Seq<char>>::empty() =~= old_views);
                    }
                    assert(crate::parsing::line_views(r@) =~= walk_nodes_spec(
                        entries@.take(i + 1),
                        dir@,
                        extensions@,
                        exclude@,
                    ));
                }
            },
            FsNode::Dir { name, entries: sub } => {
                let ghost cur = entries@[i as int];
                proof {
                    assert(cur == (FsNode::Dir { name: *name, entries: *sub }));
                    assert(walk_nodes_spec(entries@.take(i + 1), dir@, extensions@, exclude@)
                        == walk_nodes_spec(prefix, dir@, extensions@, exclude@) + walk_node_spec(
                        cur,
                        dir@,
                        extensions@,
                        exclude@,
                    ));
                }
                if !vec_contains_str(exclude, name.as_str()) {
                    let subdir = join_path(dir, name.as_str());
                    proof {
                        lemma_nodes_size_at(entries@, i as int);
                    }
                    let mut found = walk_files(sub, subdir.as_str(), extensions, exclude);
                    let ghost gfound = crate::parsing::line_views(found@);
                    r.append(&mut found);
                    proof {
                        assert(walk_node_spec(cur, dir@, extensions@, exclude@) == gfound);
                        assert(crate::parsing::line_views(r@) =~= walk_nodes_spec(
                            prefix,
                            dir@,
                            extensions@,
                            exclude@,
                        ) + gfound);
                        assert(crate::parsing::line_views(r@) =~= walk_nodes_spec(
                            entries@.take(i + 1),
                            dir@,
                            extensions@,
                            exclude@,
                        ));
                    }
                } else {
                    proof {
                        assert(contains_string(exclude@, name@));
                        assert(walk_node_spec(cur, dir@, extensions@, exclude@)
                            == Seq::<Seq<char>>::empty());
                        assert(crate::parsing::line_views(r@) + Seq::<Seq<char>>::empty()
                            =~= crate::parsing::line_views(r@));
                        assert(crate::parsing::line_views(r@) =~= walk_nodes_spec(
                            entries@.take(i + 1),
                            dir@,
                            extensions@,
                            exclude@,
                        ));
                    }
                }
            },
        }
        i += 1;
    }
    proof {
        assert(entries@.take(entries@.len() as int) =~= entries@);
    }
    r
}

/// Whether `p` is the path of a file that the walk may report: a file
/// reached from the root through directories none of which is excluded,
/// carrying an accepted extension.
pub open spec fn reachable_file(
    nodes: Seq<FsNode>,
    dir: Seq<char>,
    exts: Seq<String>,
    excl: Seq<String>,
    p: Seq<char>,
) -> bool
    decreases nodes,
{
    exists|i: int|
        0 <= i < nodes.len() && match #[trigger] nodes[i] {
            FsNode::File { name } => p == dir + seq!['/'] + name@ && ext_accepted(name@, exts),
            FsNode::Dir { name, entries } => !contains_string(excl, name@) && reachable_file(
                entries@,
                dir + seq!['/'] + name@,
                exts,
                excl,
                p,
            ),
        }
}

/// The walk reports exactly the reachable files: every subtree below a
/// directory whose name is excluded, however deep, contributes nothing,
/// and only files — never directories — are filtered by extension.
pub proof fn lemma_walk_exactly_reachable(
    nodes: Seq<FsNode>,
    dir: Seq<char>,
    exts: Seq<String>,
    excl: Seq<String>,
    p: Seq<char>,
)
    ensures
        walk_nodes_spec(nodes, dir, exts, excl).contains(p) == reachable_file(
            nodes,
            dir,
            exts,
            excl,
            p,
        ),
    decreases nodes,
{
    let w = walk_nodes_spec(nodes, dir, exts, excl);
    if nodes.len() == 0 {
        assert(!w.contains(p));
        assert(!reachable_file(nodes, dir, exts, excl, p));
    } else {
        let front = nodes.drop_last();
        let lastn = nodes.last();
        lemma_walk_exactly_reachable(front, dir, exts, excl, p);
        let wl = walk_node_spec(lastn, dir, exts, excl);
        assert(w == walk_nodes_spec(front, dir, exts, excl) + wl);
        let lastidx = nodes.len() - 1;
        // the last entry's own contribution
        assert(wl.contains(p) == match lastn {
            FsNode::File { name } => p == dir + seq!['/'] + name@ && ext_accepted(name@, exts),
            FsNode::Dir { name, entries } => !contains_string(excl, name@) && reachable_file(
                entries@,
                dir + seq!['/'] + name@,
                exts,
                excl,
                p,
            ),
        }) by {
            match lastn {
                FsNode::File { name } => {
                    if ext_accepted(name@, exts) {
                        assert(wl == seq![dir + seq!['/'] + name@]);
                        if p == dir + seq!['/'] + name@ {
                            assert(wl[0] == p);
                        }
                    }
                },
                FsNode::Dir { name, entries } => {
                    if !contains_string(excl, name@) {
                        lemma_walk_exactly_reachable(
                            entries@,
                            dir + seq!['/'] + name@,
                            exts,
                            excl,
                            p,
                        );
                    }
                },
            }
        }
        // membership in a concatenation
        assert(w.contains(p) == (walk_nodes_spec(front, dir, exts, excl).contains(p)
            || wl.contains(p))) by {
            let wf = walk_nodes_spec(front, dir, exts, excl);
            if w.contains(p) {
                let k = choose|k: int| 0 <= k < w.len() && w[k] == p;
                if k < wf.len() {
                    assert(wf[k] == p);
                } else {
                    assert(wl[k - wf.len()] == p);
                }
            }
            if wf.contains(p) {
                let k = choose|k: int| 0 <= k < wf.len() && wf[k] == p;
                assert(w[k] == p);
            }
            if wl.contains(p) {
                let k = choose|k: int| 0 <= k < wl.len() && wl[k] == p;
                assert(w[wf.len() + k] == p);
            }
        }
        // membership among the entries
        assert(reachable_file(nodes, dir, exts, excl, p) == (reachable_file(
            front,
            dir,
            exts,
            excl,
            p,
        ) || match lastn {
            FsNode::File { name } => p == dir + seq!['/'] + name@ && ext_accepted(name@, exts),
            FsNode::Dir { name, entries } => !contains_string(excl, name@) && reachable_file(
                entries@,
                dir + seq!['/'] + name@,
                exts,
                excl,
                p,
            ),
        })) by {
            if reachable_file(nodes, dir, exts, excl, p) {
                let i = choose|i: int|
                    0 <= i < nodes.len() && match #[trigger] nodes[i] {
                        FsNode::File { name } => p == dir + seq!['/'] + name@ && ext_accepted(
                            name@,
                            exts,
                        ),
                        FsNode::Dir { name, entries } => !contains_string(excl, name@)
                            && reachable_file(entries@, dir + seq!['/'] + name@, exts, excl, p),
                    };
                if i < lastidx {
                    assert(front[i] == nodes[i]);
                }
            }
            if reachable_file(front, dir, exts, excl, p) {
                let i = choose|i: int|
                    0 <= i < front.len() && match #[trigger] front[i] {
                        FsNode::File { name } => p == dir + seq!['/'] + name@ && ext_accepted(
                            name@,
                            exts,
                        ),
                        FsNode::Dir { name, entries } => !contains_string(excl, name@)
                            && reachable_file(entries@, dir + seq!['/'] + name@, exts, excl, p),
                    };
                assert(nodes[i] == front[i]);
            }
            assert(nodes[lastidx] == lastn);
        }
    }
}

} // verus!
