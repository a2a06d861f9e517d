use appserver::helpers::path_tree::PathTree;

fn path(segments: &[&str]) -> Vec<String> {
    segments.iter().map(|s| String::from(*s)).collect()
}

#[test]
fn a_new_tree_has_the_root_only() {
    let tree = PathTree::new(vec![7u32]);
    assert_eq!(tree.len(), 1);
    assert_eq!(tree.find(&vec![]), Some(0));
    assert_eq!(tree.find(&path(&["a"])), None);
    assert_eq!(tree.parent(0), None);
    assert_eq!(tree.data(0), &vec![7]);
    assert_eq!(tree.children(&vec![]).len(), 0);
}

#[test]
fn ensure_creates_the_missing_nodes_once() {
    let mut tree: PathTree<Vec<u32>> = PathTree::new(vec![]);
    let deep = tree.ensure(&path(&["a", "b", "c"]));
    assert_eq!(tree.len(), 4);
    assert_eq!(tree.find(&path(&["a", "b", "c"])), Some(deep));
    assert_eq!(tree.ensure(&path(&["a", "b", "c"])), deep);
    assert_eq!(tree.len(), 4);
    let b = tree.ensure(&path(&["a", "b"]));
    assert_eq!(tree.len(), 4);
    assert_eq!(tree.parent(deep), Some(b));
    assert_eq!(tree.key(deep), "c");
    assert_eq!(tree.ensure(&vec![]), 0);
    // reads create nothing
    assert_eq!(tree.find(&path(&["a", "x"])), None);
    assert_eq!(tree.children(&path(&["q"])).len(), 0);
    assert_eq!(tree.len(), 4);
}

#[test]
fn sibling_keys_are_unique_and_paths_tell_nodes_apart() {
    let mut tree: PathTree<Vec<u32>> = PathTree::new(vec![]);
    let ab = tree.ensure(&path(&["a", "b"]));
    let ba = tree.ensure(&path(&["b", "a"]));
    let a = tree.ensure(&path(&["a"]));
    let b = tree.ensure(&path(&["b"]));
    assert_ne!(ab, ba);
    assert_ne!(a, b);
    let mut top = tree.children(&vec![]);
    top.sort();
    assert_eq!(top, path(&["a", "b"]));
    assert_eq!(tree.children(&path(&["a"])), path(&["b"]));
    assert_eq!(tree.child_keys(b), path(&["a"]));
    assert_eq!(tree.child_ids(0), &vec![a, b]);
    assert_eq!(tree.find_child(a, &String::from("b")), Some(ab));
    assert_eq!(tree.find_child(a, &String::from("a")), None);
    // the empty string is a key like any other
    let empty = tree.ensure(&path(&[""]));
    assert_ne!(empty, 0);
    assert_eq!(tree.find(&path(&[""])), Some(empty));
}

#[test]
fn data_is_kept_per_node() {
    let mut tree = PathTree::new(vec![1u32]);
    let a = tree.ensure(&path(&["a"]));
    assert_eq!(tree.data(a).len(), 0);
    tree.data_mut(a).push(5);
    tree.data_mut(0).push(2);
    let b = tree.add_child(a, String::from("b"), vec![9]);
    assert_eq!(tree.data(a), &vec![5]);
    assert_eq!(tree.data(0), &vec![1, 2]);
    assert_eq!(tree.data(b), &vec![9]);
    assert_eq!(tree.find(&path(&["a", "b"])), Some(b));
}

#[test]
fn a_node_lies_under_its_ancestors_only() {
    let mut tree: PathTree<Vec<u32>> = PathTree::new(vec![]);
    let abc = tree.ensure(&path(&["a", "b", "c"]));
    let ab = tree.ensure(&path(&["a", "b"]));
    let ax = tree.ensure(&path(&["a", "x"]));
    let a = tree.ensure(&path(&["a"]));
    assert!(tree.is_under(abc, 0));
    assert!(tree.is_under(abc, a));
    assert!(tree.is_under(abc, ab));
    assert!(tree.is_under(abc, abc));
    assert!(!tree.is_under(abc, ax));
    assert!(!tree.is_under(ab, abc));
    assert!(!tree.is_under(0, a));
    assert!(tree.is_under(0, 0));
}
