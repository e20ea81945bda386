//! Nodes of the tree, the arena that owns them, and the operations on the
//! direct children of a node.
//!
//! Every node lives in an [`FsTree`]. A handle to a node is its position in
//! the arena; handles stay valid for as long as the arena lives. A node owns
//! the list of its children's handles, and carries its parent's handle as a
//! plain back-reference that keeps nothing alive.

use vstd::prelude::*;

verus! {

/// What a node stands for.
#[derive(Debug, Clone, Copy, PartialEq, Eq, Structural)]
pub enum FsNodeType {
    File,
    Directory,
}

/// One file or directory.
#[derive(Debug)]
pub struct FsNode {
    /// Last component of `path`.
    pub name: String,
    /// Full path: the key by which a node is found among its siblings.
    pub path: String,
    pub node_type: FsNodeType,
    /// Handle of the enclosing node; `None` for a root.
    pub parent: Option<usize>,
    /// Handles of the children, in the order in which they were attached.
    pub children: Vec<usize>,
}

/// The mathematical value of a node.
pub ghost struct FsNodeView {
    pub name: Seq<char>,
    pub path: Seq<char>,
    pub node_type: FsNodeType,
    pub parent: Option<usize>,
    pub children: Seq<usize>,
}

impl View for FsNode {
    type V = FsNodeView;

    open spec fn view(&self) -> FsNodeView {
        FsNodeView {
            name: self.name@,
            path: self.path@,
            node_type: self.node_type,
            parent: self.parent,
            children: self.children@,
        }
    }
}

/// The arena: all nodes, each at the position that is its handle.
#[derive(Debug)]
pub struct FsTree {
    pub nodes: Vec<FsNode>,
}

impl View for FsTree {
    type V = Seq<FsNodeView>;

    open spec fn view(&self) -> Seq<FsNodeView> {
        self.nodes@.map_values(|n: FsNode| n@)
    }
}

/// Every handle stored in `t` (a child or a parent) addresses a node of `t`.
pub open spec fn handles_valid(t: Seq<FsNodeView>) -> bool {
    &&& forall|i: int, k: int|
        0 <= i < t.len() && 0 <= k < t[i].children.len() ==> (#[trigger] t[i].children[k])
            < t.len()
    &&& forall|i: int|
        0 <= i < t.len() && (#[trigger] parent_of(t, i)) is Some ==> parent_of(t, i)->0 < t.len()
}

/// The parent reference of node `i`.
pub open spec fn parent_of(t: Seq<FsNodeView>, i: int) -> Option<usize> {
    t[i].parent
}

/// Every node with a parent reference is listed among that parent's children.
pub open spec fn parents_hold_children(t: Seq<FsNodeView>) -> bool {
    forall|i: int|
        0 <= i < t.len() && (#[trigger] parent_of(t, i)) is Some ==> t[parent_of(t, i)->0 as int].children.contains(
            i as usize,
        )
}

/// Every node listed as a child refers back to the node that lists it.
pub open spec fn children_point_back(t: Seq<FsNodeView>) -> bool {
    forall|i: int, k: int|
        0 <= i < t.len() && 0 <= k < t[i].children.len() ==> t[(#[trigger] t[i].children[k]) as int].parent
            == Some(i as usize)
}

/// Whether a node answers a request for `path`, of kind `kind` if one is given.
pub open spec fn admits(n: FsNodeView, path: Seq<char>, kind: Option<FsNodeType>) -> bool {
    n.path == path && (kind is None || kind == Some(n.node_type))
}

/// Position `k` holds the first child of `node` that answers the request.
pub open spec fn first_match_at(
    t: Seq<FsNodeView>,
    node: int,
    path: Seq<char>,
    kind: Option<FsNodeType>,
    k: int,
) -> bool {
    &&& 0 <= k < t[node].children.len()
    &&& admits(t[t[node].children[k] as int], path, kind)
    &&& forall|j: int| 0 <= j < k ==> !admits(t[#[trigger] t[node].children[j] as int], path, kind)
}

/// No direct child of `node` answers the request.
pub open spec fn no_match(
    t: Seq<FsNodeView>,
    node: int,
    path: Seq<char>,
    kind: Option<FsNodeType>,
) -> bool {
    forall|j: int|
        0 <= j < t[node].children.len() ==> !admits(
            t[#[trigger] t[node].children[j] as int],
            path,
            kind,
        )
}

/// `t` with `child` appended as a new node and its handle appended to the
/// children of `parent`; the new node refers back to `parent`.
pub open spec fn attached(t: Seq<FsNodeView>, parent: int, child: FsNodeView) -> Seq<FsNodeView> {
    t.update(
        parent,
        FsNodeView { children: t[parent].children.push(t.len() as usize), ..t[parent] },
    ).push(FsNodeView { parent: Some(parent as usize), ..child })
}

/// `t` with the child at position `k` taken out of the children of `node`.
/// The node that was listed there stays in the arena as it was.
pub open spec fn detached(t: Seq<FsNodeView>, node: int, k: int) -> Seq<FsNodeView> {
    t.update(node, FsNodeView { children: t[node].children.remove(k), ..t[node] })
}

/// The kind that a path has, given whether it exists as a directory.
pub open spec fn kind_of(is_directory: bool) -> FsNodeType {
    if is_directory {
        FsNodeType::Directory
    } else {
        FsNodeType::File
    }
}

/// A node without children, as it is made for a path.
pub open spec fn leaf(
    name: Seq<char>,
    path: Seq<char>,
    is_directory: bool,
    parent: Option<usize>,
) -> FsNodeView {
    FsNodeView { name, path, node_type: kind_of(is_directory), parent, children: Seq::empty() }
}

/// The final component of `path` as text, under the path syntax of the platform this library
/// is built for; `None` where the path has no final component.
pub uninterp spec fn path_file_name(path: Seq<char>) -> Option<Seq<char>>;

/// Calls `std::path::Path::file_name` on the path made of `path`. Trusted: that the outcome
/// depends on the text of the path alone, so that it can be called by the name
/// `path_file_name`. Nothing is claimed about which component that is.
#[verifier::external_body]
fn final_component(path: &String) -> (name: Option<String>)
    ensures
        name is Some <==> path_file_name(path@) is Some,
        name is Some ==> path_file_name(path@) == Some(name->0@),
{
    match std::path::Path::new(path.as_str()).file_name() {
        Some(component) => match component.to_str() {
            Some(text) => Some(text.to_string()),
            None => None,
        },
        None => None,
    }
}

impl FsTree {
    /// All handles held in the arena are in range.
    pub open spec fn wf(&self) -> bool {
        handles_valid(self@)
    }

    /// An arena without nodes.
    pub fn new() -> (tree: FsTree)
        ensures
            tree@ == Seq::<FsNodeView>::empty(),
            tree.wf(),
    {
        let tree = FsTree { nodes: Vec::new() };
        assert(tree@ =~= Seq::<FsNodeView>::empty());
        tree
    }

    /// Number of nodes that the arena holds, detached ones included.
    pub fn len(&self) -> (n: usize)
        ensures
            n == self@.len(),
    {
        self.nodes.len()
    }

    /// The node behind a handle.
    pub fn node(&self, id: usize) -> (n: &FsNode)
        requires
            id < self@.len(),
        ensures
            n@ == self@[id as int],
    {
        &self.nodes[id]
    }

    /// The node behind a handle, or `None` where the handle addresses nothing.
    pub fn get(&self, id: usize) -> (n: Option<&FsNode>)
        ensures
            n is Some <==> id < self@.len(),
            n is Some ==> n->0@ == self@[id as int],
    {
        if id < self.nodes.len() {
            Some(&self.nodes[id])
        } else {
            None
        }
    }

    /// Puts a node into the arena without attaching it to any parent, and
    /// returns its handle.
    pub fn insert(&mut self, node: FsNode) -> (id: usize)
        requires
            old(self).wf(),
            node.fits(old(self)@),
            node@.parent is Some ==> node@.parent->0 < old(self)@.len(),
        ensures
            id == old(self)@.len(),
            final(self)@ == old(self)@.push(node@),
            final(self).wf(),
    {
        let id = self.nodes.len();
        self.nodes.push(node);
        proof {
            let t = old(self)@;
            let u = self@;
            assert(u =~= t.push(node@));
            assert forall|i: int, k: int| 0 <= i < u.len() && 0 <= k < u[i].children.len() implies (
            #[trigger] u[i].children[k]) < u.len() by {
                if i < t.len() {
                    assert(u[i].children[k] == t[i].children[k]);
                } else {
                    assert(u[i].children[k] == node@.children[k]);
                }
            }
            assert forall|i: int| 0 <= i < u.len() && (#[trigger] parent_of(u, i)) is Some implies parent_of(
                u,
                i,
            )->0 < u.len() by {
                if i < t.len() {
                    assert(parent_of(u, i) == parent_of(t, i));
                }
            }
        }
        id
    }
}

fn kind_admits(filter: Option<FsNodeType>, kind: FsNodeType) -> (yes: bool)
    ensures
        yes == (filter is None || filter == Some(kind)),
{
    match filter {
        None => true,
        Some(k) => k == kind,
    }
}

impl FsNode {
    /// The handles that this node carries address nodes of `t`.
    pub open spec fn fits(&self, t: Seq<FsNodeView>) -> bool {
        &&& forall|k: int| 0 <= k < self@.children.len() ==> (#[trigger] self@.children[k]) < t.len()
    }

    /// A node made of exactly the given parts; nothing is checked.
    pub fn new(
        name: String,
        path: String,
        fs_node_type: FsNodeType,
        parent: Option<usize>,
        children: Vec<usize>,
    ) -> (node: FsNode)
        ensures
            node@ == (FsNodeView {
                name: name@,
                path: path@,
                node_type: fs_node_type,
                parent: parent,
                children: children@,
            }),
    {
        FsNode { name, path, node_type: fs_node_type, parent, children }
    }

    /// Attaches a node that is not in the arena yet: it becomes the newest node of the arena
    /// and the last child of `parent`, and its parent reference is set to `parent`, whatever
    /// it was before.
    pub fn add_child(tree: &mut FsTree, parent: usize, child: FsNode)
        requires
            old(tree).wf(),
            parent < old(tree)@.len(),
            child.fits(old(tree)@),
        ensures
            final(tree)@ == attached(old(tree)@, parent as int, child@),
            final(tree).wf(),
            parents_hold_children(old(tree)@) ==> parents_hold_children(final(tree)@),
            children_point_back(old(tree)@) && child@.children.len() == 0 ==> children_point_back(
                final(tree)@,
            ),
    {
        let id = tree.nodes.len();
        let mut node = child;
        node.parent = Some(parent);
        tree.nodes.push(node);
        tree.nodes[parent].children.push(id);
        proof {
            assert(tree@ =~= attached(old(tree)@, parent as int, child@));
            lemma_attached_keeps(old(tree)@, parent as int, child@);
        }
    }

    /// Makes the node for `path` once its name is known: with no name there is no node and the
    /// arena stays as it is; with a name, a node without children enters the arena, of kind
    /// directory exactly if `is_directory`, referring to `parent` but not yet listed by it.
    pub fn create_named(
        tree: &mut FsTree,
        name: Option<String>,
        path: String,
        is_directory: bool,
        parent: Option<usize>,
    ) -> (created: Option<usize>)
        requires
            old(tree).wf(),
            parent is Some ==> parent->0 < old(tree)@.len(),
        ensures
            match name {
                Some(n) => created is Some && created->0 == old(tree)@.len() && final(tree)@ == old(
                    tree,
                )@.push(leaf(n@, path@, is_directory, parent)),
                None => created is None && final(tree)@ == old(tree)@,
            },
            final(tree).wf(),
    {
        match name {
            Some(n) => {
                let node_type = if is_directory {
                    FsNodeType::Directory
                } else {
                    FsNodeType::File
                };
                let node = FsNode::new(n, path, node_type, parent, Vec::new());
                Some(tree.insert(node))
            },
            None => None,
        }
    }

    /// Makes the node for `path`, named by the final component of the path. There is no node
    /// exactly if the path has no final component that is text.
    pub fn create_node_from_path(
        tree: &mut FsTree,
        path: String,
        is_directory: bool,
        parent: Option<usize>,
    ) -> (created: Option<usize>)
        requires
            old(tree).wf(),
            parent is Some ==> parent->0 < old(tree)@.len(),
        ensures
            match path_file_name(path@) {
                Some(n) => created is Some && created->0 == old(tree)@.len() && final(tree)@ == old(
                    tree,
                )@.push(leaf(n, path@, is_directory, parent)),
                None => created is None && final(tree)@ == old(tree)@,
            },
            final(tree).wf(),
    {
        let name = final_component(&path);
        Self::create_named(tree, name, path, is_directory, parent)
    }

    /// Position of the first direct child of `node` that answers the request.
    fn find_position(tree: &FsTree, node: usize, path: &String, fs_node_type: Option<FsNodeType>) -> (at:
        Option<usize>)
        requires
            tree.wf(),
            node < tree@.len(),
        ensures
            match at {
                Some(k) => first_match_at(tree@, node as int, path@, fs_node_type, k as int),
                None => no_match(tree@, node as int, path@, fs_node_type),
            },
    {
        let children = &tree.nodes[node].children;
        let mut k: usize = 0;
        while k < children.len()
            invariant
                tree.wf(),
                node < tree@.len(),
                children@ == tree@[node as int].children,
                k <= children@.len(),
                forall|j: int|
                    0 <= j < k ==> !admits(
                        tree@[#[trigger] tree@[node as int].children[j] as int],
                        path@,
                        fs_node_type,
                    ),
            decreases children@.len() - k,
        {
            let child = &tree.nodes[children[k]];
            if child.path == *path && kind_admits(fs_node_type, child.node_type) {
                return Some(k);
            }
            k += 1;
        }
        None
    }

    /// Looks among the direct children of `node`, and nowhere deeper, for the first one whose
    /// path is `path` and whose kind is `fs_node_type`, where one is given.
    pub fn find_node(tree: &FsTree, node: usize, path: String, fs_node_type: Option<FsNodeType>) -> (found:
        Option<usize>)
        requires
            tree.wf(),
            node < tree@.len(),
        ensures
            found is Some <==> exists|k: int|
                0 <= k < tree@[node as int].children.len() && admits(
                    tree@[#[trigger] tree@[node as int].children[k] as int],
                    path@,
                    fs_node_type,
                ),
            match found {
                Some(c) => exists|k: int|
                    #[trigger] first_match_at(tree@, node as int, path@, fs_node_type, k) && c
                        == tree@[node as int].children[k],
                None => no_match(tree@, node as int, path@, fs_node_type),
            },
            found is Some ==> found->0 < tree@.len() && admits(
                tree@[found->0 as int],
                path@,
                fs_node_type,
            ),
    {
        match Self::find_position(tree, node, &path, fs_node_type) {
            Some(k) => Some(tree.nodes[node].children[k]),
            None => None,
        }
    }

    /// Takes the first direct child of `node` that answers the request out of the children of
    /// `node` and returns its handle. The siblings keep their order; the removed node and all
    /// below it stay in the arena untouched, no longer reachable from `node`.
    pub fn remove_node(
        tree: &mut FsTree,
        node: usize,
        path: String,
        fs_node_type: Option<FsNodeType>,
    ) -> (removed: Option<usize>)
        requires
            old(tree).wf(),
            node < old(tree)@.len(),
        ensures
            match removed {
                Some(c) => exists|k: int|
                    {
                        &&& #[trigger] first_match_at(old(tree)@, node as int, path@, fs_node_type, k)
                        &&& c == old(tree)@[node as int].children[k]
                        &&& final(tree)@ == detached(old(tree)@, node as int, k)
                    },
                None => no_match(old(tree)@, node as int, path@, fs_node_type) && final(tree)@ == old(
                    tree,
                )@,
            },
            removed is Some ==> {
                &&& removed->0 < old(tree)@.len()
                &&& admits(final(tree)@[removed->0 as int], path@, fs_node_type)
                &&& final(tree)@[node as int].children.len() + 1 == old(tree)@[node as int].children.len()
            },
            final(tree).wf(),
            children_point_back(old(tree)@) ==> children_point_back(final(tree)@),
    {
        match Self::find_position(tree, node, &path, fs_node_type) {
            Some(k) => {
                let c = tree.nodes[node].children.remove(k);
                proof {
                    assert(tree@ =~= detached(old(tree)@, node as int, k as int));
                    lemma_detached_keeps(old(tree)@, node as int, k as int);
                }
                Some(c)
            },
            None => None,
        }
    }
}

/// Attaching keeps handles in range and keeps each consistency of parent references.
pub proof fn lemma_attached_keeps(t: Seq<FsNodeView>, parent: int, child: FsNodeView)
    requires
        handles_valid(t),
        0 <= parent < t.len(),
        t.len() <= usize::MAX,
        forall|k: int| 0 <= k < child.children.len() ==> (#[trigger] child.children[k]) < t.len(),
    ensures
        handles_valid(attached(t, parent, child)),
        parents_hold_children(t) ==> parents_hold_children(attached(t, parent, child)),
        children_point_back(t) && child.children.len() == 0 ==> children_point_back(
            attached(t, parent, child),
        ),
{
    let u = attached(t, parent, child);
    assert(u.len() == t.len() + 1);
    assert forall|i: int, k: int| 0 <= i < u.len() && 0 <= k < u[i].children.len() implies (
    #[trigger] u[i].children[k]) < u.len() by {
        if i == parent {
            if k < t[i].children.len() {
                assert(u[i].children[k] == t[i].children[k]);
            }
        } else if i < t.len() {
            assert(u[i].children[k] == t[i].children[k]);
        } else {
            assert(u[i].children[k] == child.children[k]);
        }
    }
    assert forall|i: int| 0 <= i < u.len() && (#[trigger] parent_of(u, i)) is Some implies parent_of(
        u,
        i,
    )->0 < u.len() by {
        if i < t.len() {
            assert(parent_of(u, i) == parent_of(t, i));
        }
    }
    if parents_hold_children(t) {
        assert forall|i: int| 0 <= i < u.len() && (#[trigger] parent_of(u, i)) is Some implies u[parent_of(
            u,
            i,
        )->0 as int].children.contains(i as usize) by {
            if i < t.len() {
                assert(parent_of(u, i) == parent_of(t, i));
                let p = t[i].parent->0 as int;
                assert(t[p].children.contains(i as usize));
                let k = choose|k: int| 0 <= k < t[p].children.len() && t[p].children[k] == i as usize;
                assert(u[p].children[k] == i as usize);
            } else {
                assert(u[parent].children[t[parent].children.len() as int] == i as usize);
            }
        }
    }
    if children_point_back(t) && child.children.len() == 0 {
        assert forall|i: int, k: int|
            0 <= i < u.len() && 0 <= k < u[i].children.len() implies u[(#[trigger] u[i].children[k]) as int].parent
            == Some(i as usize) by {
            if i == parent {
                if k < t[i].children.len() {
                    assert(u[i].children[k] == t[i].children[k]);
                }
            } else {
                assert(u[i].children[k] == t[i].children[k]);
            }
        }
    }
}

/// Detaching keeps handles in range and keeps every listed child referring back to its parent.
pub proof fn lemma_detached_keeps(t: Seq<FsNodeView>, node: int, k: int)
    requires
        handles_valid(t),
        0 <= node < t.len(),
        0 <= k < t[node].children.len(),
    ensures
        handles_valid(detached(t, node, k)),
        children_point_back(t) ==> children_point_back(detached(t, node, k)),
{
    let u = detached(t, node, k);
    assert forall|i: int, j: int| 0 <= i < u.len() && 0 <= j < u[i].children.len() implies (
    #[trigger] u[i].children[j]) < u.len() && (children_point_back(t) ==> u[u[i].children[j] as int].parent
        == Some(i as usize)) by {
        if i == node {
            if j < k {
                assert(u[i].children[j] == t[i].children[j]);
            } else {
                assert(u[i].children[j] == t[i].children[j + 1]);
            }
        } else {
            assert(u[i].children[j] == t[i].children[j]);
        }
    }
    assert forall|i: int| 0 <= i < u.len() && (#[trigger] parent_of(u, i)) is Some implies parent_of(
        u,
        i,
    )->0 < u.len() by {
        assert(parent_of(u, i) == parent_of(t, i));
    }
}

/// Once the one child that answers a request has been taken out, no child of that node answers
/// it any more, and the node has one child fewer. Where a second child answered the same
/// request, that one would be found next.
pub proof fn lemma_removed_is_gone(
    t: Seq<FsNodeView>,
    node: int,
    path: Seq<char>,
    kind: Option<FsNodeType>,
    k: int,
)
    requires
        handles_valid(t),
        0 <= node < t.len(),
        first_match_at(t, node, path, kind, k),
        forall|j: int|
            k < j < t[node].children.len() ==> !admits(t[#[trigger] t[node].children[j] as int], path, kind),
    ensures
        no_match(detached(t, node, k), node, path, kind),
        detached(t, node, k)[node].children.len() == t[node].children.len() - 1,
        admits(detached(t, node, k)[t[node].children[k] as int], path, kind),
{
    let u = detached(t, node, k);
    assert forall|j: int| 0 <= j < u[node].children.len() implies !admits(
        u[#[trigger] u[node].children[j] as int],
        path,
        kind,
    ) by {
        let c = u[node].children[j];
        let jj = if j < k { j } else { j + 1 };
        assert(c == t[node].children[jj]);
        assert(u[c as int].path == t[c as int].path);
        assert(u[c as int].node_type == t[c as int].node_type);
    }
    let c = t[node].children[k];
    assert(u[c as int].path == t[c as int].path);
}

} // verus!
