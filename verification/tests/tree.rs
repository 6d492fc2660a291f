use ego_tree::Tree;

#[test]
fn new() {
    let tree = Tree::new('a');
    let root = tree.root();
    assert_eq!(&'a', root.value());
    assert_eq!(None, root.parent());
    assert_eq!(None, root.prev_sibling());
    assert_eq!(None, root.next_sibling());
    assert_eq!(None, root.first_child());
    assert_eq!(None, root.last_child());
}

#[test]
fn tree_root() {
    let tree = Tree::new('a');
    assert_eq!(&'a', tree.root().value());
}

#[test]
fn root_mut() {
    let mut tree = Tree::new('a');
    assert_eq!(&'a', tree.root_mut().value());
}

#[test]
fn orphan() {
    let mut tree = Tree::new('a');
    let mut orphan = tree.orphan('b');
    assert_eq!(&'b', orphan.value());
    assert!(orphan.parent().is_none());
}

#[test]
fn get() {
    let tree = Tree::new('a');
    let id = tree.root().id();
    assert_eq!(Some(tree.root()), tree.get(id));
}

#[test]
fn get_mut() {
    let mut tree = Tree::new('a');
    let id = tree.root().id();
    assert_eq!(Some('a'), tree.get_mut(id).map(|mut n| *n.value()));
}

#[test]
fn tree_clone() {
    let one = Tree::new('a');
    let two = one.clone();
    assert_eq!(one, two);
}

#[test]
fn tree_eq() {
    let one = Tree::new('a');
    let two = Tree::new('a');
    assert_eq!(one, two);
}

#[test]
#[should_panic]
fn tree_neq() {
    let one = Tree::new('a');
    let two = Tree::new('b');
    assert_eq!(one, two);
}

#[test]
fn with_capacity_holds_the_root_alone() {
    let tree = Tree::with_capacity('a', 16);
    assert_eq!(&'a', tree.root().value());
    assert!(!tree.root().has_children());
    assert_eq!(tree, Tree::new('a'));
}

#[test]
fn default_holds_the_default_value() {
    let tree: Tree<i32> = Tree::default();
    assert_eq!(&0, tree.root().value());
    assert_eq!(tree, Tree::new(0));
}

#[test]
fn get_rejects_an_id_of_another_tree() {
    let mut one = Tree::new('a');
    let mut two = Tree::new('a');
    let id_one = one.root_mut().append('b').id();
    let id_two = two.root_mut().append('b').id();
    assert_eq!(one, two);
    assert!(one.get(id_two).is_none());
    assert!(two.get(id_one).is_none());
    assert!(one.get_mut(id_two).is_none());
    assert!(two.get_mut(id_one).is_none());
    assert_eq!(Some(&'b'), one.get(id_one).map(|n| n.value()));
    assert_eq!(Some(&'b'), two.get(id_two).map(|n| n.value()));
}

#[test]
fn clone_has_a_tag_of_its_own() {
    let mut one = Tree::new('a');
    let id = one.root_mut().append('b').id();
    let two = one.clone();
    assert_eq!(one, two);
    assert!(two.get(id).is_none());
    assert!(one.get(id).is_some());
    assert_eq!(&'b', two.root().first_child().unwrap().value());
}

#[test]
fn trees_with_other_links_differ() {
    let mut one = Tree::new('a');
    one.root_mut().append('b');
    one.root_mut().append('c');
    let mut two = Tree::new('a');
    two.root_mut().append('b');
    two.root_mut().prepend('c');
    assert!(one != two);
    let mut three = Tree::new('a');
    three.root_mut().append('b');
    assert!(one != three);
}

#[test]
fn orphan_is_the_next_slot_and_linked_to_nothing() {
    let mut tree = Tree::new('a');
    tree.root_mut().append('b');
    let id = tree.orphan('c').id();
    let c = tree.get(id).unwrap();
    assert_eq!(&'c', c.value());
    assert_eq!(None, c.parent());
    assert_eq!(None, c.prev_sibling());
    assert_eq!(None, c.next_sibling());
    assert!(!c.has_children());
    assert!(!c.has_siblings());
    let mut values = Vec::new();
    let mut it = tree.values();
    while let Some(v) = it.next() {
        values.push(*v);
    }
    assert_eq!(vec!['a', 'b', 'c'], values);
}
