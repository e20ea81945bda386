//! Building a tree from a directory hierarchy, one listing at a time.
//!
//! The walk decides which directory is listed next and what a listing does to
//! the tree; whoever drives it looks the directory up and hands the entries
//! back. Directories are listed in the order in which their nodes were made,
//! so the children of each node keep the order of its listing.

use crate::fs_node::{
    attached, children_point_back, handles_valid, leaf, lemma_attached_keeps, parent_of,
    parents_hold_children, path_file_name, FsNode, FsNodeType, FsNodeView, FsTree,
};
use vstd::prelude::*;

verus! {

/// One entry of a directory listing: its full path, and whether that path is a directory.
#[derive(Debug)]
pub struct EntryInfo {
    pub path: String,
    pub is_directory: bool,
}

/// The mathematical value of an entry.
pub ghost struct EntryView {
    pub path: Seq<char>,
    pub is_directory: bool,
}

impl View for EntryInfo {
    type V = EntryView;

    open spec fn view(&self) -> EntryView {
        EntryView { path: self.path@, is_directory: self.is_directory }
    }
}

/// The views of the entries of a listing, in order.
pub open spec fn listing(entries: Seq<EntryInfo>) -> Seq<EntryView> {
    entries.map_values(|e: EntryInfo| e@)
}

/// Whether an entry's path has a final component to name its node by.
pub open spec fn has_name(e: EntryView) -> bool {
    path_file_name(e.path) is Some
}

/// The entries that get a node: those with a name, in their order.
pub open spec fn named_entries(entries: Seq<EntryView>) -> Seq<EntryView>
    decreases entries.len(),
{
    if entries.len() == 0 {
        Seq::empty()
    } else if has_name(entries.last()) {
        named_entries(entries.drop_last()).push(entries.last())
    } else {
        named_entries(entries.drop_last())
    }
}

/// The named entries that a listing brings; none where the directory could not be read.
pub open spec fn readable_entries(entries: Option<Vec<EntryInfo>>) -> Seq<EntryView> {
    match entries {
        Some(found) => named_entries(listing(found@)),
        None => Seq::empty(),
    }
}

/// The node made for a named entry found in directory `dir`.
pub open spec fn entry_node(e: EntryView, dir: int) -> FsNodeView {
    leaf(path_file_name(e.path)->0, e.path, e.is_directory, Some(dir as usize))
}

/// `t` after `named` entries were found in directory `dir`: one new node per entry, at the end
/// of the arena, and their handles, in the same order, at the end of the children of `dir`.
pub open spec fn with_children(t: Seq<FsNodeView>, dir: int, named: Seq<EntryView>) -> Seq<
    FsNodeView,
> {
    t.update(
        dir,
        FsNodeView {
            children: t[dir].children + Seq::new(named.len(), |j: int| (t.len() + j) as usize),
            ..t[dir]
        },
    ) + named.map_values(|e: EntryView| entry_node(e, dir))
}

/// Node 0 is the root, and every other node refers to a parent that stands before it.
pub open spec fn rooted(t: Seq<FsNodeView>) -> bool {
    &&& t.len() >= 1
    &&& parent_of(t, 0) is None
    &&& forall|i: int| 1 <= i < t.len() ==> (#[trigger] parent_of(t, i)) is Some && parent_of(t, i)->0 < i
}

/// `d` is the first directory at or after position `from`.
pub open spec fn next_directory_at(t: Seq<FsNodeView>, from: int, d: int) -> bool {
    &&& from <= d < t.len()
    &&& t[d].node_type == FsNodeType::Directory
    &&& forall|j: int| from <= j < d ==> (#[trigger] t[j]).node_type != FsNodeType::Directory
}

/// No directory stands at or after position `from`.
pub open spec fn no_directory_from(t: Seq<FsNodeView>, from: int) -> bool {
    forall|j: int| from <= j < t.len() ==> (#[trigger] t[j]).node_type != FsNodeType::Directory
}

/// Finding one more named entry is attaching its node.
pub proof fn lemma_with_children_push(t: Seq<FsNodeView>, dir: int, named: Seq<EntryView>, e: EntryView)
    requires
        0 <= dir < t.len(),
    ensures
        with_children(t, dir, named.push(e)) == attached(
            with_children(t, dir, named),
            dir,
            entry_node(e, dir),
        ),
{
    let a = with_children(t, dir, named.push(e));
    let w = with_children(t, dir, named);
    let b = attached(w, dir, entry_node(e, dir));
    assert(w.len() == t.len() + named.len());
    assert(a.len() == b.len());
    assert(a[dir].children =~= b[dir].children);
    assert forall|i: int| 0 <= i < a.len() implies a[i] == b[i] by {
        if i == dir {
        } else if i < t.len() {
        } else if i < t.len() + named.len() {
            assert(a[i] == entry_node(named.push(e)[i - t.len()], dir));
        } else {
        }
    }
    assert(a =~= b);
}

/// Finding no named entry leaves the tree as it is.
pub proof fn lemma_with_children_none(t: Seq<FsNodeView>, dir: int)
    requires
        0 <= dir < t.len(),
    ensures
        with_children(t, dir, Seq::empty()) == t,
{
    assert(t[dir].children + Seq::<usize>::new(0, |j: int| (t.len() + j) as usize) =~= t[dir].children);
    assert(with_children(t, dir, Seq::empty()) =~= t);
}

/// The named entries of a listing one entry longer.
pub proof fn lemma_named_entries_take(entries: Seq<EntryView>, i: int)
    requires
        0 <= i < entries.len(),
    ensures
        named_entries(entries.take(i + 1)) == if has_name(entries[i]) {
            named_entries(entries.take(i)).push(entries[i])
        } else {
            named_entries(entries.take(i))
        },
{
    assert(entries.take(i + 1).drop_last() =~= entries.take(i));
    assert(entries.take(i + 1).last() == entries[i]);
}

impl FsNode {
    /// Gives directory `dir` the entries of its listing: each entry whose path has a name gets
    /// a node without children that refers to `dir`, and `dir` lists these nodes after the
    /// children it had, in the order of the listing. Entries without a name are passed over.
    pub fn attach_entries(tree: &mut FsTree, dir: usize, entries: &Vec<EntryInfo>)
        requires
            old(tree).wf(),
            dir < old(tree)@.len(),
        ensures
            final(tree)@ == with_children(old(tree)@, dir as int, named_entries(listing(entries@))),
            final(tree).wf(),
            parents_hold_children(old(tree)@) ==> parents_hold_children(final(tree)@),
            children_point_back(old(tree)@) ==> children_point_back(final(tree)@),
    {
        let ghost t0 = tree@;
        let ghost all = listing(entries@);
        proof {
            lemma_with_children_none(t0, dir as int);
            assert(all.take(0) =~= Seq::<EntryView>::empty());
        }
        let mut i: usize = 0;
        while i < entries.len()
            invariant
                i <= entries@.len(),
                all == listing(entries@),
                t0 == old(tree)@,
                dir < t0.len(),
                tree.wf(),
                tree@ == with_children(t0, dir as int, named_entries(all.take(i as int))),
                parents_hold_children(t0) ==> parents_hold_children(tree@),
                children_point_back(t0) ==> children_point_back(tree@),
            decreases entries@.len() - i,
        {
            let ghost before = tree@;
            let ghost named = named_entries(all.take(i as int));
            let entry = &entries[i];
            proof {
                assert(all[i as int] == entry@);
                lemma_named_entries_take(all, i as int);
                assert(before.len() == t0.len() + named.len());
            }
            let made = Self::create_node_from_path(
                tree,
                entry.path.clone(),
                entry.is_directory,
                Some(dir),
            );
            let ghost mid = tree@;
            match made {
                Some(id) => {
                    assert(tree@.len() == tree.nodes@.len());
                    tree.nodes[dir].children.push(id);
                    proof {
                        let child = entry_node(entry@, dir as int);
                        let u = tree@;
                        assert(u[dir as int].children == mid[dir as int].children.push(id));
                        assert forall|j: int| 0 <= j < u.len() && j != dir implies u[j] == mid[j] by {}
                        assert(u =~= attached(before, dir as int, child));
                        lemma_attached_keeps(before, dir as int, child);
                        lemma_with_children_push(t0, dir as int, named, entry@);
                    }
                },
                None => {},
            }
            i += 1;
        }
        proof {
            assert(all.take(entries@.len() as int) =~= all);
        }
    }
}

/// A walk over a directory hierarchy in progress: the tree built so far, and the position up
/// to which its directories have been listed.
#[derive(Debug)]
pub struct TreeWalk {
    pub tree: FsTree,
    pub cursor: usize,
}

impl TreeWalk {
    /// What holds of a walk at every moment: the tree is rooted at node 0, each node is
    /// listed by the parent it refers to and refers to the node that lists it, and the nodes
    /// that still wait for their listing have no children.
    pub open spec fn inv(&self) -> bool {
        &&& handles_valid(self.tree@)
        &&& rooted(self.tree@)
        &&& parents_hold_children(self.tree@)
        &&& children_point_back(self.tree@)
        &&& self.cursor <= self.tree@.len()
        &&& forall|i: int|
            self.cursor <= i < self.tree@.len() ==> (#[trigger] self.tree@[i]).children.len() == 0
    }

    /// Starts a walk at `path`: the root node is made, and nothing is listed yet. There is no
    /// walk exactly if the path has no final component to name the root by.
    pub fn begin(path: String, is_directory: bool) -> (walk: Option<TreeWalk>)
        ensures
            match path_file_name(path@) {
                Some(name) => {
                    &&& walk is Some
                    &&& walk->0.inv()
                    &&& walk->0.cursor == 0
                    &&& walk->0.tree@ == seq![leaf(name, path@, is_directory, None)]
                },
                None => walk is None,
            },
    {
        let mut tree = FsTree::new();
        match FsNode::create_node_from_path(&mut tree, path, is_directory, None) {
            Some(_) => {
                let walk = TreeWalk { tree, cursor: 0 };
                proof {
                    let t = walk.tree@;
                    assert(t =~= seq![leaf(path_file_name(path@)->0, path@, is_directory, None)]);
                    assert(t[0].children.len() == 0);
                    assert(parent_of(t, 0) is None);
                }
                Some(walk)
            },
            None => None,
        }
    }

    /// The directory whose listing the walk asks for next: the first directory that has not
    /// been listed. `None` when the tree is complete.
    pub fn pending(&self) -> (dir: Option<usize>)
        requires
            self.inv(),
        ensures
            match dir {
                Some(d) => next_directory_at(self.tree@, self.cursor as int, d as int),
                None => no_directory_from(self.tree@, self.cursor as int),
            },
    {
        let mut d: usize = self.cursor;
        while d < self.tree.nodes.len()
            invariant
                self.cursor <= d <= self.tree@.len(),
                forall|j: int|
                    self.cursor <= j < d ==> (#[trigger] self.tree@[j]).node_type != FsNodeType::Directory,
            decreases self.tree@.len() - d,
        {
            if self.tree.nodes[d].node_type == FsNodeType::Directory {
                return Some(d);
            }
            d += 1;
        }
        None
    }

    /// Hands the walk the listing of the pending directory, or `None` where the directory
    /// could not be read, which leaves it without children. The directory counts as listed
    /// either way. With no directory pending nothing changes.
    pub fn supply(&mut self, entries: Option<Vec<EntryInfo>>)
        requires
            old(self).inv(),
        ensures
            final(self).inv(),
            no_directory_from(old(self).tree@, old(self).cursor as int) ==> *final(self) == *old(self),
            forall|d: int| #[trigger]
                next_directory_at(old(self).tree@, old(self).cursor as int, d) ==> {
                    &&& final(self).cursor == d + 1
                    &&& final(self).tree@ == with_children(
                        old(self).tree@,
                        d,
                        readable_entries(entries),
                    )
                },
    {
        match self.pending() {
            Some(d) => {
                assert(self.tree@.len() == self.tree.nodes@.len());
                let ghost t0 = self.tree@;
                let ghost named = readable_entries(entries);
                match &entries {
                    Some(found) => {
                        FsNode::attach_entries(&mut self.tree, d, found);
                    },
                    None => {
                        proof {
                            lemma_with_children_none(t0, d as int);
                        }
                    },
                }
                let total = self.tree.len();
                assert(d < total);
                self.cursor = d + 1;
                proof {
                    let u = self.tree@;
                    assert(u == with_children(t0, d as int, named));
                    assert(u.len() == t0.len() + named.len());
                    assert forall|i: int| 0 <= i < u.len() implies parent_of(u, i) == (if i < t0.len() {
                        parent_of(t0, i)
                    } else {
                        Some(d)
                    }) by {}
                    assert(rooted(u));
                    assert forall|i: int| d + 1 <= i < u.len() implies (#[trigger] u[i]).children.len()
                        == 0 by {
                        if i < t0.len() {
                            assert(u[i] == t0[i]);
                        }
                    }
                    assert forall|d2: int| #[trigger]
                        next_directory_at(t0, old(self).cursor as int, d2) implies d2 == d by {
                        if d2 < d {
                            assert(t0[d2].node_type != FsNodeType::Directory);
                        } else if d < d2 {
                            assert(t0[d as int].node_type != FsNodeType::Directory);
                        }
                    }
                    assert(!no_directory_from(t0, old(self).cursor as int)) by {
                        assert(t0[d as int].node_type == FsNodeType::Directory);
                    }
                }
            },
            None => {
                proof {
                    assert forall|d2: int| #[trigger]
                        next_directory_at(self.tree@, self.cursor as int, d2) implies false by {
                        assert(self.tree@[d2].node_type != FsNodeType::Directory);
                    }
                }
            },
        }
    }

    /// Ends the walk and gives the tree; its root is node 0.
    pub fn finish(self) -> (tree: FsTree)
        requires
            self.inv(),
        ensures
            tree == self.tree,
            tree.wf(),
            rooted(tree@),
            parents_hold_children(tree@),
            children_point_back(tree@),
    {
        self.tree
    }
}

} // verus!
