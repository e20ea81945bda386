//! What holds of every tree that a walk builds, stated over the views of the
//! tree and of the listings it was built from.

use crate::fs_node::{
    admits, attached, children_point_back, detached, first_match_at, handles_valid,
    kind_of, lemma_removed_is_gone, no_match, parent_of, parents_hold_children, FsNodeType,
    FsNodeView,
};
use crate::walk::{
    entry_node, has_name, named_entries, next_directory_at, no_directory_from, rooted,
    with_children, EntryView,
};
use vstd::prelude::*;

verus! {

/// Number of parent references between node `i` and a node without one, in a tree in which
/// every parent stands before its children.
pub open spec fn depth(t: Seq<FsNodeView>, i: int) -> nat
    decreases i,
{
    if 0 < i < t.len() && parent_of(t, i) is Some && parent_of(t, i)->0 < i {
        depth(t, parent_of(t, i)->0 as int) + 1
    } else {
        0
    }
}

/// Node `to` is found from node `from` by descending exactly `k` child links.
pub open spec fn reachable(t: Seq<FsNodeView>, from: int, to: int, k: nat) -> bool
    decreases k,
{
    if k == 0 {
        to == from
    } else {
        exists|p: int|
            0 <= p < t.len() && reachable(t, from, p, (k - 1) as nat) && #[trigger] t[p].children.contains(
                to as usize,
            )
    }
}

/// No two children of `node` have the same path.
pub open spec fn sibling_paths_distinct(t: Seq<FsNodeView>, node: int) -> bool {
    forall|j: int, k: int|
        0 <= j < k < t[node].children.len() ==> t[#[trigger] t[node].children[j] as int].path
            != t[#[trigger] t[node].children[k] as int].path
}

/// The paths of the direct children of `node`.
pub open spec fn child_paths(t: Seq<FsNodeView>, node: int) -> Set<Seq<char>> {
    Set::new(
        |p: Seq<char>|
            exists|k: int|
                0 <= k < t[node].children.len() && t[#[trigger] t[node].children[k] as int].path == p,
    )
}

/// The paths of the entries of a listing that have a name.
pub open spec fn named_paths(entries: Seq<EntryView>) -> Set<Seq<char>> {
    Set::new(
        |p: Seq<char>|
            exists|i: int| 0 <= i < entries.len() && (#[trigger] entries[i]).path == p && has_name(entries[i]),
    )
}

/// An entry gets a node exactly if it is in the listing and has a name; a listing in which
/// every entry has a name gets a node for each.
pub proof fn lemma_named_entries_members(entries: Seq<EntryView>)
    ensures
        named_entries(entries).len() <= entries.len(),
        forall|e: EntryView| #[trigger]
            named_entries(entries).contains(e) <==> entries.contains(e) && has_name(e),
        (forall|i: int| 0 <= i < entries.len() ==> has_name(#[trigger] entries[i])) ==> named_entries(
            entries,
        ) == entries,
    decreases entries.len(),
{
    let named = named_entries(entries);
    if entries.len() == 0 {
        assert(named =~= entries);
    } else {
        let rest = entries.drop_last();
        let last = entries.last();
        let named_rest = named_entries(rest);
        lemma_named_entries_members(rest);
        assert forall|e: EntryView| #[trigger] named.contains(e) <==> entries.contains(e) && has_name(e) by {
            if named.contains(e) {
                let j = choose|j: int| 0 <= j < named.len() && named[j] == e;
                if j < named_rest.len() {
                    assert(named_rest[j] == e);
                    assert(named_rest.contains(e));
                    let i = choose|i: int| 0 <= i < rest.len() && rest[i] == e;
                    assert(entries[i] == e);
                } else {
                    assert(e == last);
                    assert(entries[entries.len() - 1] == e);
                }
            }
            if entries.contains(e) && has_name(e) {
                let i = choose|i: int| 0 <= i < entries.len() && entries[i] == e;
                if i < rest.len() {
                    assert(rest[i] == e);
                    assert(rest.contains(e));
                    assert(named_rest.contains(e));
                    let j = choose|j: int| 0 <= j < named_rest.len() && named_rest[j] == e;
                    assert(named[j] == e);
                } else {
                    assert(named[named.len() - 1] == e);
                }
            }
        }
        if forall|i: int| 0 <= i < entries.len() ==> has_name(#[trigger] entries[i]) {
            assert forall|i: int| 0 <= i < rest.len() implies has_name(#[trigger] rest[i]) by {
                assert(rest[i] == entries[i]);
            }
            assert(has_name(entries[entries.len() - 1]));
            assert(named =~= entries);
        }
    }
}

/// A directory that had no children has, after its listing, exactly one child for each entry
/// with a name, in the order of the listing: child `j` is the node of the `j`-th such entry,
/// with that entry's path and kind, and refers back to the directory. Where every entry has a
/// name, that is one child per entry.
pub proof fn lemma_one_child_per_entry(t: Seq<FsNodeView>, dir: int, entries: Seq<EntryView>)
    requires
        0 <= dir < t.len(),
        t.len() + entries.len() <= usize::MAX,
    ensures
        ({
            let u = with_children(t, dir, named_entries(entries));
            let named = named_entries(entries);
            &&& u[dir].children.len() == t[dir].children.len() + named.len()
            &&& named.len() <= entries.len()
            &&& (forall|i: int| 0 <= i < entries.len() ==> has_name(#[trigger] entries[i]))
                ==> u[dir].children.len() == t[dir].children.len() + entries.len()
            &&& forall|j: int|
                0 <= j < named.len() ==> u[(#[trigger] u[dir].children[t[dir].children.len() + j]) as int]
                    == entry_node(named[j], dir)
        }),
{
    lemma_named_entries_members(entries);
    let named = named_entries(entries);
    let u = with_children(t, dir, named);
    assert forall|j: int| 0 <= j < named.len() implies u[(#[trigger] u[dir].children[t[dir].children.len()
        + j]) as int] == entry_node(named[j], dir) by {
        assert(u[dir].children[t[dir].children.len() + j] == (t.len() + j) as usize);
        assert(u[t.len() + j] == entry_node(named[j], dir));
    }
}

/// A listing changes the depth of no node that was there before it.
pub proof fn lemma_depth_kept(t: Seq<FsNodeView>, dir: int, named: Seq<EntryView>, i: int)
    requires
        0 <= dir < t.len(),
        0 <= i < t.len(),
    ensures
        depth(with_children(t, dir, named), i) == depth(t, i),
    decreases i,
{
    let u = with_children(t, dir, named);
    assert(parent_of(u, i) == parent_of(t, i));
    if 0 < i && parent_of(t, i) is Some && parent_of(t, i)->0 < i {
        lemma_depth_kept(t, dir, named, parent_of(t, i)->0 as int);
    }
}

/// Every entry with a name that a listing of `dir` brings has a node exactly one level below
/// `dir`: a direct child of `dir` with the entry's path, whose depth is that of `dir` plus
/// one.
pub proof fn lemma_entries_one_level_down(
    t: Seq<FsNodeView>,
    dir: int,
    entries: Seq<EntryView>,
    i: int,
)
    requires
        rooted(t),
        0 <= dir < t.len(),
        t.len() + entries.len() <= usize::MAX,
        0 <= i < entries.len(),
        has_name(entries[i]),
    ensures
        ({
            let u = with_children(t, dir, named_entries(entries));
            exists|k: int|
                {
                    &&& 0 <= k < u[dir].children.len()
                    &&& u[#[trigger] u[dir].children[k] as int].path == entries[i].path
                    &&& u[u[dir].children[k] as int].parent == Some(dir as usize)
                    &&& depth(u, u[dir].children[k] as int) == depth(t, dir) + 1
                }
        }),
{
    lemma_named_entries_members(entries);
    let named = named_entries(entries);
    let u = with_children(t, dir, named);
    assert(entries.contains(entries[i]));
    assert(named.contains(entries[i]));
    let j = choose|j: int| 0 <= j < named.len() && named[j] == entries[i];
    let k = t[dir].children.len() + j;
    let c = t.len() + j;
    assert(u[dir].children[k] == c as usize);
    assert(u[c] == entry_node(named[j], dir));
    assert(parent_of(u, c) == Some(dir as usize));
    lemma_depth_kept(t, dir, named, dir);
    assert(depth(u, c) == depth(u, dir) + 1);
}

/// In a rooted tree whose listed children refer back to their parents, every child link goes
/// down by exactly one level.
pub proof fn lemma_child_is_one_deeper(t: Seq<FsNodeView>, node: int, k: int)
    requires
        handles_valid(t),
        rooted(t),
        children_point_back(t),
        t.len() <= usize::MAX,
        0 <= node < t.len(),
        0 <= k < t[node].children.len(),
    ensures
        depth(t, t[node].children[k] as int) == depth(t, node) + 1,
{
    let c = t[node].children[k] as int;
    assert(parent_of(t, c) == Some(node as usize));
    assert(c != 0);
}

/// The children that a directory without children gets from a listing have exactly the paths
/// of the listing's entries with a name.
pub proof fn lemma_children_paths(t: Seq<FsNodeView>, dir: int, entries: Seq<EntryView>)
    requires
        0 <= dir < t.len(),
        t[dir].children.len() == 0,
        t.len() + entries.len() <= usize::MAX,
    ensures
        child_paths(with_children(t, dir, named_entries(entries)), dir) == named_paths(entries),
{
    lemma_named_entries_members(entries);
    let named = named_entries(entries);
    let u = with_children(t, dir, named);
    assert forall|p: Seq<char>| child_paths(u, dir).contains(p) <==> named_paths(entries).contains(p) by {
        if child_paths(u, dir).contains(p) {
            let k = choose|k: int|
                0 <= k < u[dir].children.len() && u[#[trigger] u[dir].children[k] as int].path == p;
            assert(u[dir].children[k] == (t.len() + k) as usize);
            assert(u[t.len() + k] == entry_node(named[k], dir));
            assert(named.contains(named[k]));
            let i = choose|i: int| 0 <= i < entries.len() && entries[i] == named[k];
            assert(entries[i].path == p && has_name(entries[i]));
        }
        if named_paths(entries).contains(p) {
            let i = choose|i: int|
                0 <= i < entries.len() && (#[trigger] entries[i]).path == p && has_name(entries[i]);
            assert(entries.contains(entries[i]));
            assert(named.contains(entries[i]));
            let j = choose|j: int| 0 <= j < named.len() && named[j] == entries[i];
            assert(u[dir].children[j] == (t.len() + j) as usize);
            assert(u[t.len() + j] == entry_node(named[j], dir));
            assert(u[u[dir].children[j] as int].path == p);
        }
    }
    assert(child_paths(u, dir) =~= named_paths(entries));
}

/// Two listings that hold the same entries, in whatever order, give a directory children with
/// the same set of paths.
pub proof fn lemma_same_entries_same_children(
    t1: Seq<FsNodeView>,
    dir1: int,
    entries1: Seq<EntryView>,
    t2: Seq<FsNodeView>,
    dir2: int,
    entries2: Seq<EntryView>,
)
    requires
        0 <= dir1 < t1.len(),
        0 <= dir2 < t2.len(),
        t1[dir1].children.len() == 0,
        t2[dir2].children.len() == 0,
        t1.len() + entries1.len() <= usize::MAX,
        t2.len() + entries2.len() <= usize::MAX,
        forall|e: EntryView| entries1.contains(e) <==> entries2.contains(e),
    ensures
        child_paths(with_children(t1, dir1, named_entries(entries1)), dir1) == child_paths(
            with_children(t2, dir2, named_entries(entries2)),
            dir2,
        ),
{
    lemma_children_paths(t1, dir1, entries1);
    lemma_children_paths(t2, dir2, entries2);
    assert forall|p: Seq<char>| named_paths(entries1).contains(p) <==> named_paths(entries2).contains(
        p,
    ) by {
        if named_paths(entries1).contains(p) {
            let i = choose|i: int|
                0 <= i < entries1.len() && (#[trigger] entries1[i]).path == p && has_name(entries1[i]);
            assert(entries1.contains(entries1[i]));
            let j = choose|j: int| 0 <= j < entries2.len() && entries2[j] == entries1[i];
            assert(entries2[j].path == p && has_name(entries2[j]));
        }
        if named_paths(entries2).contains(p) {
            let i = choose|i: int|
                0 <= i < entries2.len() && (#[trigger] entries2[i]).path == p && has_name(entries2[i]);
            assert(entries2.contains(entries2[i]));
            let j = choose|j: int| 0 <= j < entries1.len() && entries1[j] == entries2[i];
            assert(entries1[j].path == p && has_name(entries1[j]));
        }
    }
    assert(named_paths(entries1) =~= named_paths(entries2));
}

/// In a rooted tree in which every parent lists its children, each node is found from the
/// root by descending exactly as many child links as its depth says.
pub proof fn lemma_reachable_at_depth(t: Seq<FsNodeView>, i: int)
    requires
        handles_valid(t),
        rooted(t),
        parents_hold_children(t),
        t.len() <= usize::MAX,
        0 <= i < t.len(),
    ensures
        reachable(t, 0, i, depth(t, i)),
    decreases i,
{
    if i > 0 {
        let p = parent_of(t, i)->0 as int;
        let k = depth(t, i);
        lemma_reachable_at_depth(t, p);
        assert(k == depth(t, p) + 1);
        assert(reachable(t, 0, p, (k - 1) as nat));
        assert(t[p].children.contains(i as usize));
        assert(reachable(t, 0, i, k));
    } else {
        assert(depth(t, 0) == 0);
        assert(reachable(t, 0, 0, 0));
    }
}

/// Two nodes that agree in all but their children.
pub open spec fn same_identity(a: FsNodeView, b: FsNodeView) -> bool {
    a.name == b.name && a.path == b.path && a.node_type == b.node_type && a.parent == b.parent
}

/// No operation on the tree changes the name, path, kind or parent reference of a node that
/// is in the arena: attaching, detaching and listing change children only.
pub proof fn lemma_identity_kept(
    t: Seq<FsNodeView>,
    node: int,
    child: FsNodeView,
    k: int,
    named: Seq<EntryView>,
    i: int,
)
    requires
        0 <= node < t.len(),
        0 <= i < t.len(),
    ensures
        same_identity(attached(t, node, child)[i], t[i]),
        same_identity(detached(t, node, k)[i], t[i]),
        same_identity(with_children(t, node, named)[i], t[i]),
{
}

/// A listing of one directory leaves every other node that was there as it was.
pub proof fn lemma_listing_touches_one_directory(
    t: Seq<FsNodeView>,
    dir: int,
    named: Seq<EntryView>,
    i: int,
)
    requires
        0 <= dir < t.len(),
        0 <= i < t.len(),
        i != dir,
    ensures
        with_children(t, dir, named)[i] == t[i],
        with_children(t, dir, named).len() == t.len() + named.len(),
{
}

/// Among children with distinct paths, a child that was taken out is not found again: after
/// the removal no child of that node answers the request, the node has one child fewer, and
/// the node taken out is the one that was asked for.
pub proof fn lemma_removed_is_gone_among_distinct(
    t: Seq<FsNodeView>,
    node: int,
    path: Seq<char>,
    kind: Option<FsNodeType>,
    k: int,
)
    requires
        handles_valid(t),
        0 <= node < t.len(),
        sibling_paths_distinct(t, node),
        first_match_at(t, node, path, kind, k),
    ensures
        no_match(detached(t, node, k), node, path, kind),
        detached(t, node, k)[node].children.len() == t[node].children.len() - 1,
        admits(detached(t, node, k)[t[node].children[k] as int], path, kind),
{
    assert forall|j: int| k < j < t[node].children.len() implies !admits(
        t[#[trigger] t[node].children[j] as int],
        path,
        kind,
    ) by {
        assert(t[t[node].children[k] as int].path != t[t[node].children[j] as int].path);
    }
    lemma_removed_is_gone(t, node, path, kind, k);
}

/// A listing whose named entries have distinct paths gives a directory without children
/// children with distinct paths.
pub proof fn lemma_distinct_entries_distinct_children(
    t: Seq<FsNodeView>,
    dir: int,
    entries: Seq<EntryView>,
)
    requires
        0 <= dir < t.len(),
        t[dir].children.len() == 0,
        t.len() + entries.len() <= usize::MAX,
        forall|a: int, b: int|
            0 <= a < b < named_entries(entries).len() ==> (#[trigger] named_entries(entries)[a]).path != (
            #[trigger] named_entries(entries)[b]).path,
    ensures
        sibling_paths_distinct(with_children(t, dir, named_entries(entries)), dir),
{
    lemma_one_child_per_entry(t, dir, entries);
    let named = named_entries(entries);
    let u = with_children(t, dir, named);
    let kids = u[dir].children;
    assert(kids.len() == named.len());
    assert forall|j: int, k: int| 0 <= j < k < kids.len() implies u[#[trigger] kids[j] as int].path
        != u[#[trigger] kids[k] as int].path by {
        assert(u[kids[j] as int] == entry_node(named[j], dir));
        assert(u[kids[k] as int] == entry_node(named[k], dir));
        assert(named[j].path != named[k].path);
    }
}

/// Directory `d` has exactly one child for each of the `named` entries, in their order, each
/// with the name, path and kind of its entry and referring back to `d`.
pub open spec fn lists(t: Seq<FsNodeView>, d: int, named: Seq<EntryView>) -> bool {
    &&& t[d].children.len() == named.len()
    &&& forall|j: int|
        0 <= j < named.len() ==> same_identity(
            t[#[trigger] t[d].children[j] as int],
            entry_node(named[j], d),
        )
}

/// The named entries of what a hierarchy shows for one path; none where it shows no listing.
pub open spec fn named_of(shown: Option<Seq<EntryView>>) -> Seq<EntryView> {
    match shown {
        Some(entries) => named_entries(entries),
        None => Seq::empty(),
    }
}

/// The tree holds all that the hierarchy `shows`: every directory in it lists the named
/// entries that the hierarchy shows for its path.
pub open spec fn mirrors(
    t: Seq<FsNodeView>,
    shows: spec_fn(Seq<char>) -> Option<Seq<EntryView>>,
) -> bool {
    forall|d: int|
        0 <= d < t.len() && (#[trigger] t[d]).node_type == FsNodeType::Directory ==> lists(
            t,
            d,
            named_of(shows(t[d].path)),
        )
}

/// As `mirrors`, of the directories before position `upto` only.
pub open spec fn mirrors_before(
    t: Seq<FsNodeView>,
    shows: spec_fn(Seq<char>) -> Option<Seq<EntryView>>,
    upto: int,
) -> bool {
    forall|d: int|
        0 <= d < upto && d < t.len() && (#[trigger] t[d]).node_type == FsNodeType::Directory ==> lists(
            t,
            d,
            named_of(shows(t[d].path)),
        )
}

/// Entry `e` is found in the hierarchy by descending `k` directory levels from `root`.
pub open spec fn found_below(
    shows: spec_fn(Seq<char>) -> Option<Seq<EntryView>>,
    root: EntryView,
    e: EntryView,
    k: nat,
) -> bool
    decreases k,
{
    if k == 0 {
        e == root
    } else {
        exists|q: EntryView|
            found_below(shows, root, q, (k - 1) as nat) && q.is_directory && #[trigger] named_of(
                shows(q.path),
            ).contains(e)
    }
}

/// A directory without children lists, after its listing, exactly the named entries.
pub proof fn lemma_listing_lists(t: Seq<FsNodeView>, dir: int, named: Seq<EntryView>)
    requires
        0 <= dir < t.len(),
        t[dir].children.len() == 0,
        t.len() + named.len() <= usize::MAX,
    ensures
        lists(with_children(t, dir, named), dir, named),
{
    let u = with_children(t, dir, named);
    assert forall|j: int| 0 <= j < named.len() implies same_identity(
        u[#[trigger] u[dir].children[j] as int],
        entry_node(named[j], dir),
    ) by {
        assert(u[dir].children[j] == (t.len() + j) as usize);
        assert(u[t.len() + j] == entry_node(named[j], dir));
    }
}

/// What another directory lists is not changed by a listing.
pub proof fn lemma_listing_keeps_lists(
    t: Seq<FsNodeView>,
    dir: int,
    named: Seq<EntryView>,
    other: int,
    listed: Seq<EntryView>,
)
    requires
        handles_valid(t),
        0 <= dir < t.len(),
        0 <= other < t.len(),
        other != dir,
        lists(t, other, listed),
    ensures
        lists(with_children(t, dir, named), other, listed),
{
    let u = with_children(t, dir, named);
    assert(u[other] == t[other]);
    assert forall|j: int| 0 <= j < listed.len() implies same_identity(
        u[#[trigger] u[other].children[j] as int],
        entry_node(listed[j], other),
    ) by {
        let c = t[other].children[j] as int;
        assert(same_identity(u[c], t[c]));
    }
}

/// A walk that is handed, for the pending directory `d`, what the hierarchy shows for its
/// path, mirrors the hierarchy one directory further.
pub proof fn lemma_listing_extends_mirror(
    t: Seq<FsNodeView>,
    shows: spec_fn(Seq<char>) -> Option<Seq<EntryView>>,
    from: int,
    d: int,
)
    requires
        handles_valid(t),
        0 <= from,
        mirrors_before(t, shows, from),
        next_directory_at(t, from, d),
        t[d].children.len() == 0,
        t.len() + named_of(shows(t[d].path)).len() <= usize::MAX,
    ensures
        mirrors_before(with_children(t, d, named_of(shows(t[d].path))), shows, d + 1),
{
    let named = named_of(shows(t[d].path));
    let u = with_children(t, d, named);
    assert forall|d2: int|
        0 <= d2 < d + 1 && d2 < u.len() && (#[trigger] u[d2]).node_type
            == FsNodeType::Directory implies lists(u, d2, named_of(shows(u[d2].path))) by {
        assert(same_identity(u[d2], t[d2]));
        if d2 == d {
            lemma_listing_lists(t, d, named);
        } else {
            assert(t[d2].node_type == FsNodeType::Directory);
            assert(d2 < from);
            lemma_listing_keeps_lists(t, d, named, d2, named_of(shows(t[d2].path)));
        }
    }
}

/// When no directory is pending, a tree that mirrors the hierarchy in all directories that
/// were listed mirrors it in all.
pub proof fn lemma_finished_walk_mirrors(
    t: Seq<FsNodeView>,
    shows: spec_fn(Seq<char>) -> Option<Seq<EntryView>>,
    from: int,
)
    requires
        mirrors_before(t, shows, from),
        no_directory_from(t, from),
    ensures
        mirrors(t, shows),
{
}

/// In a tree that mirrors a hierarchy from `root` on, every entry found by descending `k`
/// directory levels from the root has a node with its path and kind that is found from the
/// tree's root by descending exactly `k` child links.
pub proof fn lemma_depth_fidelity(
    t: Seq<FsNodeView>,
    shows: spec_fn(Seq<char>) -> Option<Seq<EntryView>>,
    root: EntryView,
    e: EntryView,
    k: nat,
) -> (i: int)
    requires
        handles_valid(t),
        t.len() >= 1,
        t[0].path == root.path,
        t[0].node_type == kind_of(root.is_directory),
        mirrors(t, shows),
        found_below(shows, root, e, k),
    ensures
        0 <= i < t.len(),
        t[i].path == e.path,
        t[i].node_type == kind_of(e.is_directory),
        reachable(t, 0, i, k),
    decreases k,
{
    if k == 0 {
        0
    } else {
        let q = choose|q: EntryView|
            found_below(shows, root, q, (k - 1) as nat) && q.is_directory && #[trigger] named_of(
                shows(q.path),
            ).contains(e);
        let above = lemma_depth_fidelity(t, shows, root, q, (k - 1) as nat);
        let named = named_of(shows(q.path));
        assert(t[above].node_type == FsNodeType::Directory);
        assert(lists(t, above, named));
        let j = choose|j: int| 0 <= j < named.len() && named[j] == e;
        let c = t[above].children[j];
        assert(same_identity(t[c as int], entry_node(e, above)));
        assert(t[above].children[j] == c);
        assert(t[above].children.contains((c as int) as usize));
        assert(reachable(t, 0, above, (k - 1) as nat));
        assert(reachable(t, 0, c as int, k));
        c as int
    }
}

} // verus!
