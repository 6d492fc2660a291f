use ego_tree::Tree;

#[test]
fn node_id_clone() {
    let tree = Tree::new('a');
    let one = tree.root().id();
    let two = one.clone();
    assert_eq!(one, two);
    assert_eq!(tree.get(one), tree.get(two));
}

#[test]
fn node_id_eq() {
    let tree = Tree::new('a');
    let one = tree.root().id();
    let two = tree.root().id();
    assert_eq!(one, two);
}

#[test]
#[should_panic]
fn node_id_neq() {
    let mut tree = Tree::new('a');
    let id = tree.root_mut().append('b').id();
    assert_eq!(tree.root().id(), id);
}

#[test]
fn ids_of_equal_trees_differ() {
    let one = Tree::new('a');
    let two = Tree::new('a');
    assert!(one.root().id() != two.root().id());
}
