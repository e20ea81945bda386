use fs_tree::fs_node::{FsNode, FsNodeType, FsTree};

fn file(name: &str, path: &str) -> FsNode {
    FsNode::new(name.to_string(), path.to_string(), FsNodeType::File, None, vec![])
}

fn directory(name: &str, path: &str) -> FsNode {
    FsNode::new(name.to_string(), path.to_string(), FsNodeType::Directory, None, vec![])
}

// root/ with a.txt, sub/ (holding b.txt) and c.txt, attached by hand.
fn sample() -> FsTree {
    let mut tree = FsTree::new();
    let root = tree.insert(directory("root", "root"));
    FsNode::add_child(&mut tree, root, file("a.txt", "root/a.txt"));
    FsNode::add_child(&mut tree, root, directory("sub", "root/sub"));
    FsNode::add_child(&mut tree, 2, file("b.txt", "root/sub/b.txt"));
    FsNode::add_child(&mut tree, root, file("c.txt", "root/c.txt"));
    tree
}

#[test]
fn new_keeps_every_part() {
    let node = FsNode::new(
        "n".to_string(),
        "some/n".to_string(),
        FsNodeType::Directory,
        Some(4),
        vec![7, 9],
    );
    assert_eq!(node.name, "n");
    assert_eq!(node.path, "some/n");
    assert_eq!(node.node_type, FsNodeType::Directory);
    assert_eq!(node.parent, Some(4));
    assert_eq!(node.children, vec![7, 9]);
}

#[test]
fn empty_arena_holds_nothing() {
    let tree = FsTree::new();
    assert_eq!(tree.len(), 0);
    assert!(tree.get(0).is_none());
}

#[test]
fn insert_leaves_the_node_detached() {
    let mut tree = FsTree::new();
    let first = tree.insert(directory("root", "root"));
    let second = tree.insert(file("loose", "elsewhere/loose"));
    assert_eq!(first, 0);
    assert_eq!(second, 1);
    assert_eq!(tree.len(), 2);
    assert!(tree.node(first).children.is_empty());
    assert_eq!(tree.node(second).parent, None);
    assert!(tree.get(2).is_none());
    assert_eq!(tree.get(1).unwrap().name, "loose");
}

#[test]
fn add_child_appends_and_sets_the_parent() {
    let tree = sample();
    assert_eq!(tree.len(), 5);
    assert_eq!(tree.node(0).children, vec![1, 2, 4]);
    assert_eq!(tree.node(2).children, vec![3]);
    assert_eq!(tree.node(1).parent, Some(0));
    assert_eq!(tree.node(3).parent, Some(2));
    assert_eq!(tree.node(4).name, "c.txt");
    assert_eq!(tree.node(0).parent, None);
}

#[test]
fn add_child_overwrites_a_parent_given_before() {
    let mut tree = sample();
    let child = FsNode::new(
        "d.txt".to_string(),
        "root/sub/d.txt".to_string(),
        FsNodeType::File,
        Some(0),
        vec![],
    );
    FsNode::add_child(&mut tree, 2, child);
    assert_eq!(tree.node(5).parent, Some(2));
    assert_eq!(tree.node(2).children, vec![3, 5]);
    assert_eq!(tree.node(0).children, vec![1, 2, 4]);
}

#[test]
fn find_node_honours_the_kind() {
    let tree = sample();
    assert_eq!(
        FsNode::find_node(&tree, 0, "root/sub".to_string(), Some(FsNodeType::Directory)),
        Some(2)
    );
    assert_eq!(FsNode::find_node(&tree, 0, "root/sub".to_string(), None), Some(2));
    assert_eq!(FsNode::find_node(&tree, 0, "root/sub".to_string(), Some(FsNodeType::File)), None);
    assert_eq!(
        FsNode::find_node(&tree, 0, "root/a.txt".to_string(), Some(FsNodeType::Directory)),
        None
    );
    assert_eq!(FsNode::find_node(&tree, 0, "root/c.txt".to_string(), None), Some(4));
}

#[test]
fn find_node_does_not_look_below_direct_children() {
    let tree = sample();
    assert_eq!(FsNode::find_node(&tree, 0, "root/sub/b.txt".to_string(), None), None);
    assert_eq!(
        FsNode::find_node(&tree, 2, "root/sub/b.txt".to_string(), Some(FsNodeType::File)),
        Some(3)
    );
    assert_eq!(FsNode::find_node(&tree, 3, "root/sub/b.txt".to_string(), None), None);
    assert_eq!(FsNode::find_node(&tree, 0, "root".to_string(), None), None);
}

#[test]
fn find_node_takes_the_first_of_two_equal_paths() {
    let mut tree = sample();
    FsNode::add_child(&mut tree, 0, directory("a.txt", "root/a.txt"));
    assert_eq!(FsNode::find_node(&tree, 0, "root/a.txt".to_string(), None), Some(1));
    assert_eq!(
        FsNode::find_node(&tree, 0, "root/a.txt".to_string(), Some(FsNodeType::Directory)),
        Some(5)
    );
}

#[test]
fn remove_node_keeps_the_order_of_the_others() {
    let mut tree = sample();
    let removed = FsNode::remove_node(&mut tree, 0, "root/sub".to_string(), None);
    assert_eq!(removed, Some(2));
    assert_eq!(tree.node(0).children, vec![1, 4]);
    assert_eq!(tree.len(), 5);
    // the removed subtree is intact
    assert_eq!(tree.node(2).children, vec![3]);
    assert_eq!(tree.node(2).parent, Some(0));
    assert_eq!(tree.node(3).path, "root/sub/b.txt");
    assert_eq!(FsNode::find_node(&tree, 0, "root/sub".to_string(), None), None);
}

#[test]
fn remove_node_miss_changes_nothing() {
    let mut tree = sample();
    assert_eq!(FsNode::remove_node(&mut tree, 0, "root/sub/b.txt".to_string(), None), None);
    assert_eq!(
        FsNode::remove_node(&mut tree, 0, "root/a.txt".to_string(), Some(FsNodeType::Directory)),
        None
    );
    assert_eq!(tree.node(0).children, vec![1, 2, 4]);
    assert_eq!(tree.len(), 5);
}

#[test]
fn remove_node_with_a_twin_leaves_the_twin() {
    let mut tree = sample();
    FsNode::add_child(&mut tree, 0, file("a.txt", "root/a.txt"));
    assert_eq!(FsNode::remove_node(&mut tree, 0, "root/a.txt".to_string(), None), Some(1));
    assert_eq!(tree.node(0).children, vec![2, 4, 5]);
    assert_eq!(FsNode::find_node(&tree, 0, "root/a.txt".to_string(), None), Some(5));
}

#[test]
fn create_node_from_path_names_by_the_final_component() {
    let mut tree = FsTree::new();
    let id = FsNode::create_node_from_path(&mut tree, "root/sub/b.txt".to_string(), false, None);
    assert_eq!(id, Some(0));
    assert_eq!(tree.node(0).name, "b.txt");
    assert_eq!(tree.node(0).path, "root/sub/b.txt");
    assert_eq!(tree.node(0).node_type, FsNodeType::File);
    assert_eq!(tree.node(0).parent, None);
    assert!(tree.node(0).children.is_empty());

    let second = FsNode::create_node_from_path(&mut tree, "root/sub".to_string(), true, Some(0));
    assert_eq!(second, Some(1));
    assert_eq!(tree.node(1).name, "sub");
    assert_eq!(tree.node(1).node_type, FsNodeType::Directory);
    assert_eq!(tree.node(1).parent, Some(0));
    // the parent does not list it yet
    assert!(tree.node(0).children.is_empty());
}

#[test]
fn create_node_from_path_without_a_name_makes_nothing() {
    let mut tree = FsTree::new();
    assert_eq!(FsNode::create_node_from_path(&mut tree, "/".to_string(), true, None), None);
    assert_eq!(FsNode::create_node_from_path(&mut tree, "a/..".to_string(), true, None), None);
    assert_eq!(tree.len(), 0);
}

#[test]
fn create_named_follows_the_given_name() {
    let mut tree = FsTree::new();
    assert_eq!(FsNode::create_named(&mut tree, None, "root".to_string(), true, None), None);
    assert_eq!(tree.len(), 0);
    let id = FsNode::create_named(
        &mut tree,
        Some("shown".to_string()),
        "root".to_string(),
        true,
        None,
    );
    assert_eq!(id, Some(0));
    assert_eq!(tree.node(0).name, "shown");
    assert_eq!(tree.node(0).path, "root");
    assert_eq!(tree.node(0).node_type, FsNodeType::Directory);
}
