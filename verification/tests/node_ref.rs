use ego_tree::Tree;

fn a_b() -> Tree<char> {
    let mut tree = Tree::new('a');
    tree.root_mut().append('b');
    tree
}

fn a_bc() -> Tree<char> {
    let mut tree = Tree::new('a');
    tree.root_mut().append('b');
    tree.root_mut().append('c');
    tree
}

#[test]
fn node_ref_value() {
    let tree = Tree::new('a');
    assert_eq!(&'a', tree.root().value());
}

#[test]
fn node_ref_parent() {
    let tree = a_b();
    let b = tree.root().first_child().unwrap();
    assert_eq!(tree.root(), b.parent().unwrap());
}

#[test]
fn node_ref_prev_sibling() {
    let tree = a_bc();
    let c = tree.root().last_child().unwrap();
    assert_eq!(tree.root().first_child(), c.prev_sibling());
}

#[test]
fn node_ref_next_sibling() {
    let tree = a_bc();
    let b = tree.root().first_child().unwrap();
    assert_eq!(tree.root().last_child(), b.next_sibling());
}

#[test]
fn node_ref_first_child() {
    let tree = a_bc();
    assert_eq!(&'b', tree.root().first_child().unwrap().value());
}

#[test]
fn node_ref_last_child() {
    let tree = a_bc();
    assert_eq!(&'c', tree.root().last_child().unwrap().value());
}

#[test]
fn index_of_child() {
    let tree = a_bc();
    let root = tree.root();
    let b = root.first_child().unwrap();
    let c = root.last_child().unwrap();

    assert_eq!(0, root.index_of_child(&b).unwrap());
    assert_eq!(1, root.index_of_child(&c).unwrap());
    assert!(root.index_of_child(&root).is_none());
}

#[test]
fn node_ref_has_siblings() {
    let tree = a_bc();
    assert_eq!(false, tree.root().has_siblings());
    assert_eq!(true, tree.root().first_child().unwrap().has_siblings());
}

#[test]
fn node_ref_has_children() {
    let tree = a_bc();
    assert_eq!(true, tree.root().has_children());
    assert_eq!(false, tree.root().first_child().unwrap().has_children());
}

#[test]
fn node_ref_clone() {
    let tree = Tree::new('a');
    let one = tree.root();
    let two = one.clone();
    assert_eq!(one, two);
}

#[test]
fn node_ref_eq() {
    let tree = Tree::new('a');
    assert_eq!(tree.root(), tree.root());
}

#[test]
#[should_panic]
fn node_ref_neq() {
    let tree = a_bc();
    assert_eq!(tree.root(), tree.root().first_child().unwrap());
}

#[test]
#[should_panic]
fn neq_tree() {
    let one = Tree::new('a');
    let two = one.clone();
    assert_eq!(one.root(), two.root());
}

#[test]
fn tree_of_a_node_is_its_tree() {
    let tree = a_bc();
    let b = tree.root().first_child().unwrap();
    assert_eq!(&tree, b.tree());
    assert_eq!(tree.root(), b.tree().root());
}

#[test]
fn index_of_child_is_none_for_a_node_of_another_tree() {
    let one = a_bc();
    let two = a_bc();
    let b_two = two.root().first_child().unwrap();
    assert!(one.root().index_of_child(&b_two).is_none());
    let c = one.root().last_child().unwrap();
    assert!(c.index_of_child(&one.root()).is_none());
}
