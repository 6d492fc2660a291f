use ego_tree::{NodeMut, NodeRef, Tree};

fn a_b() -> Tree<char> {
    let mut tree = Tree::new('a');
    tree.root_mut().append('b');
    tree
}

fn a_bc() -> Tree<char> {
    let mut tree = Tree::new('a');
    tree.root_mut().append('b');
    tree.root_mut().append('c');
    tree
}

fn leaves(root: i32, children: &[i32]) -> Tree<i32> {
    let mut tree = Tree::new(root);
    for c in children {
        tree.root_mut().append(*c);
    }
    tree
}

fn two_levels(root: char, groups: &[(char, &[char])]) -> Tree<char> {
    let mut tree = Tree::new(root);
    for (value, children) in groups {
        let mut r = tree.root_mut();
        let mut node = r.append(*value);
        for c in children.iter() {
            node.append(*c);
        }
    }
    tree
}

#[test]
fn node_mut_value() {
    let mut tree = Tree::new('a');
    assert_eq!(&'a', tree.root_mut().value());
}

#[test]
fn node_mut_parent() {
    let mut tree = a_b();
    assert_eq!(
        &'a',
        tree.root_mut()
            .first_child()
            .unwrap()
            .parent()
            .unwrap()
            .value()
    );
}

#[test]
fn node_mut_prev_sibling() {
    let mut tree = a_bc();
    assert_eq!(
        &'b',
        tree.root_mut()
            .last_child()
            .unwrap()
            .prev_sibling()
            .unwrap()
            .value()
    );
}

#[test]
fn node_mut_next_sibling() {
    let mut tree = a_bc();
    assert_eq!(
        &'c',
        tree.root_mut()
            .first_child()
            .unwrap()
            .next_sibling()
            .unwrap()
            .value()
    );
}

#[test]
fn node_mut_first_child() {
    let mut tree = a_bc();
    assert_eq!(&'b', tree.root_mut().first_child().unwrap().value());
}

#[test]
fn node_mut_last_child() {
    let mut tree = a_bc();
    assert_eq!(&'c', tree.root_mut().last_child().unwrap().value());
}

#[test]
fn node_mut_has_siblings() {
    let mut tree = a_bc();
    assert!(tree.root_mut().first_child().unwrap().has_siblings());
    assert!(!tree.root_mut().has_siblings());
}

#[test]
fn node_mut_has_children() {
    let mut tree = a_bc();
    assert!(tree.root_mut().has_children());
    assert!(!tree.root_mut().first_child().unwrap().has_children());
}

#[test]
fn for_each_next_sibling() {
    let mut tree = leaves(1, &[2, 3, 4, 5, 6]);
    {
        let mut root = tree.root_mut();
        let mut c = root.first_child().unwrap();

        c.for_each_next_sibling(|n: &mut NodeMut<i32>| {
            *n.value() += 1;
        });
    }

    let res = leaves(1, &[2, 4, 5, 6, 7]);

    assert_eq!(tree, res);
}

#[test]
fn for_each_prev_sibling() {
    let mut tree = leaves(1, &[2, 3, 4, 5, 6]);
    {
        let mut root = tree.root_mut();
        let mut c = root.last_child().unwrap();

        c.for_each_prev_sibling(|n: &mut NodeMut<i32>| {
            *n.value() += 1;
        });
    }

    let res = leaves(1, &[3, 4, 5, 6, 6]);

    assert_eq!(tree, res);
}

#[test]
fn for_each_sibling() {
    let rt = 2;
    let mut tree = leaves(rt, &[2, 3, 4, 5, 6]);
    {
        let mut root = tree.root_mut();
        let mut c = root.last_child().unwrap();

        c.for_each_sibling(|n: &mut NodeMut<i32>| {
            let v = n.parent().map(|mut p| *p.value()).unwrap();
            *n.value() += v;
        });
    }

    let res = leaves(rt, &[4, 5, 6, 7, 8]);

    assert_eq!(tree, res);
}

#[test]
fn for_each_child() {
    let mut tree = leaves(1, &[2, 3, 4, 5, 6]);
    {
        let mut root = tree.root_mut();
        root.for_each_child(|n: &mut NodeMut<i32>| *n.value() += 1);

        assert_eq!(*root.value(), 1);
    }

    let res = leaves(1, &[3, 4, 5, 6, 7]);

    assert_eq!(tree, res);
}

#[test]
fn append_1() {
    let mut tree = Tree::new('a');
    tree.root_mut().append('b');

    let root = tree.root();
    let child = root.first_child().unwrap();

    assert_eq!(&'b', child.value());
    assert_eq!(Some(child), root.last_child());
    assert_eq!(Some(root), child.parent());
    assert_eq!(None, child.next_sibling());
    assert_eq!(None, child.next_sibling());
}

#[test]
fn append_2() {
    let mut tree = Tree::new('a');
    tree.root_mut().append('b');
    tree.root_mut().append('c');

    let root = tree.root();
    let b = root.first_child().unwrap();
    let c = root.last_child().unwrap();

    assert_eq!(&'b', b.value());
    assert_eq!(&'c', c.value());
    assert_eq!(Some(root), b.parent());
    assert_eq!(Some(root), c.parent());
    assert_eq!(None, b.prev_sibling());
    assert_eq!(Some(c), b.next_sibling());
    assert_eq!(Some(b), c.prev_sibling());
    assert_eq!(None, c.next_sibling());
}

#[test]
fn append_3() {
    let mut tree = Tree::new('a');
    tree.root_mut().append('b');
    tree.root_mut().append('c');
    tree.root_mut().append('d');

    let root = tree.root();
    let b = root.first_child().unwrap();
    let c = b.next_sibling().unwrap();
    let d = root.last_child().unwrap();

    assert_eq!(&'b', b.value());
    assert_eq!(&'c', c.value());
    assert_eq!(&'d', d.value());
    assert_eq!(Some(root), b.parent());
    assert_eq!(Some(root), c.parent());
    assert_eq!(Some(root), d.parent());
    assert_eq!(None, b.prev_sibling());
    assert_eq!(Some(c), b.next_sibling());
    assert_eq!(Some(b), c.prev_sibling());
    assert_eq!(Some(d), c.next_sibling());
    assert_eq!(Some(c), d.prev_sibling());
    assert_eq!(None, d.next_sibling());
}

#[test]
fn prepend_1() {
    let mut tree = Tree::new('a');
    tree.root_mut().prepend('b');

    let root = tree.root();
    let child = root.first_child().unwrap();

    assert_eq!(&'b', child.value());
    assert_eq!(Some(child), root.last_child());
    assert_eq!(Some(root), child.parent());
    assert_eq!(None, child.next_sibling());
    assert_eq!(None, child.next_sibling());
}

#[test]
fn prepend_2() {
    let mut tree = Tree::new('a');
    tree.root_mut().prepend('c');
    tree.root_mut().prepend('b');

    let root = tree.root();
    let b = root.first_child().unwrap();
    let c = root.last_child().unwrap();

    assert_eq!(&'b', b.value());
    assert_eq!(&'c', c.value());
    assert_eq!(Some(root), b.parent());
    assert_eq!(Some(root), c.parent());
    assert_eq!(None, b.prev_sibling());
    assert_eq!(Some(c), b.next_sibling());
    assert_eq!(Some(b), c.prev_sibling());
    assert_eq!(None, c.next_sibling());
}

#[test]
fn prepend_3() {
    let mut tree = Tree::new('a');
    tree.root_mut().prepend('d');
    tree.root_mut().prepend('c');
    tree.root_mut().prepend('b');

    let root = tree.root();
    let b = root.first_child().unwrap();
    let c = b.next_sibling().unwrap();
    let d = root.last_child().unwrap();

    assert_eq!(&'b', b.value());
    assert_eq!(&'c', c.value());
    assert_eq!(&'d', d.value());
    assert_eq!(Some(root), b.parent());
    assert_eq!(Some(root), c.parent());
    assert_eq!(Some(root), d.parent());
    assert_eq!(None, b.prev_sibling());
    assert_eq!(Some(c), b.next_sibling());
    assert_eq!(Some(b), c.prev_sibling());
    assert_eq!(Some(d), c.next_sibling());
    assert_eq!(Some(c), d.prev_sibling());
    assert_eq!(None, d.next_sibling());
}

#[test]
fn insert_before_first() {
    let mut tree = Tree::new('a');
    tree.root_mut().append('c');
    tree.root_mut().first_child().unwrap().insert_before('b');

    let root = tree.root();
    let b = root.first_child().unwrap();
    let c = root.last_child().unwrap();

    assert_eq!(&'b', b.value());
    assert_eq!(Some(root), b.parent());
    assert_eq!(None, b.prev_sibling());
    assert_eq!(Some(c), b.next_sibling());
    assert_eq!(Some(b), c.prev_sibling());
    assert_eq!(None, c.next_sibling());
}

#[test]
fn insert_before() {
    let mut tree = Tree::new('a');
    tree.root_mut().append('b');
    tree.root_mut().append('d');
    tree.root_mut().last_child().unwrap().insert_before('c');

    let root = tree.root();
    let b = root.first_child().unwrap();
    let c = b.next_sibling().unwrap();
    let d = root.last_child().unwrap();

    assert_eq!(&'c', c.value());
    assert_eq!(Some(root), b.parent());
    assert_eq!(Some(root), c.parent());
    assert_eq!(Some(root), d.parent());
    assert_eq!(None, b.prev_sibling());
    assert_eq!(Some(c), b.next_sibling());
    assert_eq!(Some(b), c.prev_sibling());
    assert_eq!(Some(d), c.next_sibling());
    assert_eq!(Some(c), d.prev_sibling());
    assert_eq!(None, d.next_sibling());
}

#[test]
fn insert_after_first() {
    let mut tree = a_b();
    tree.root_mut().first_child().unwrap().insert_after('c');

    let root = tree.root();
    let b = root.first_child().unwrap();
    let c = root.last_child().unwrap();

    assert_eq!(&'c', c.value());
    assert_eq!(Some(root), c.parent());
    assert_eq!(None, b.prev_sibling());
    assert_eq!(Some(c), b.next_sibling());
    assert_eq!(Some(b), c.prev_sibling());
    assert_eq!(None, c.next_sibling());
}

#[test]
fn insert_after() {
    let mut tree = Tree::new('a');
    tree.root_mut().append('b');
    tree.root_mut().append('d');
    tree.root_mut().first_child().unwrap().insert_after('c');

    let root = tree.root();
    let b = root.first_child().unwrap();
    let c = b.next_sibling().unwrap();
    let d = root.last_child().unwrap();

    assert_eq!(&'c', c.value());
    assert_eq!(Some(root), b.parent());
    assert_eq!(Some(root), c.parent());
    assert_eq!(Some(root), d.parent());
    assert_eq!(None, b.prev_sibling());
    assert_eq!(Some(c), b.next_sibling());
    assert_eq!(Some(b), c.prev_sibling());
    assert_eq!(Some(d), c.next_sibling());
    assert_eq!(Some(c), d.prev_sibling());
    assert_eq!(None, d.next_sibling());
}

#[test]
fn insert_at_index() {
    let mut tree = Tree::new('a');
    tree.root_mut().append('b');
    tree.root_mut().append('c');
    tree.root_mut().append('e');

    {
        let id = {
            let mut child = tree.root().first_child().unwrap();

            for _ in 0..2 {
                child = child.next_sibling().unwrap();
            }
            child.id()
        };

        tree.get_mut(id).unwrap().insert_before('d');
    }

    let mut descendants = Vec::new();
    let mut it = tree.root().descendants();
    while let Some(n) = it.next() {
        descendants.push(n.value());
    }

    assert_eq!(&[&'a', &'b', &'c', &'d', &'e',], &descendants[..]);
}

#[test]
fn detach() {
    let mut tree = Tree::new('a');
    tree.root_mut().append('b');
    tree.root_mut().append('d');
    let mut root = tree.root_mut();
    let mut b = root.first_child().unwrap();
    let mut c = b.insert_after('c');
    c.detach();

    assert!(c.parent().is_none());
    assert!(c.prev_sibling().is_none());
    assert!(c.next_sibling().is_none());
}

#[test]
fn reparent_from_id_append() {
    let mut tree = two_levels('a', &[('b', &['c', 'd']), ('e', &['f', 'g'])]);
    let e_id = tree.root().last_child().unwrap().id();
    tree.root_mut()
        .first_child()
        .unwrap()
        .reparent_from_id_append(e_id);

    let b = tree.root().first_child().unwrap();
    let e = tree.root().last_child().unwrap();
    let d = b.first_child().unwrap().next_sibling().unwrap();
    let g = b.last_child().unwrap();
    let f = g.prev_sibling().unwrap();

    assert!(!e.has_children());
    assert_eq!(&'f', f.value());
    assert_eq!(&'g', g.value());
    assert_eq!(Some(f), d.next_sibling());
    assert_eq!(Some(d), f.prev_sibling());
}

#[test]
fn reparent_from_id_prepend() {
    let mut tree = two_levels('a', &[('b', &['f', 'g']), ('e', &['c', 'd'])]);
    let e_id = tree.root().last_child().unwrap().id();
    tree.root_mut()
        .first_child()
        .unwrap()
        .reparent_from_id_prepend(e_id);

    let b = tree.root().first_child().unwrap();
    let e = tree.root().last_child().unwrap();
    let c = b.first_child().unwrap();
    let d = c.next_sibling().unwrap();
    let f = b.last_child().unwrap().prev_sibling().unwrap();

    assert!(!e.has_children());
    assert_eq!(&'c', c.value());
    assert_eq!(&'d', d.value());
    assert_eq!(Some(f), d.next_sibling());
    assert_eq!(Some(d), f.prev_sibling());
}

#[test]
fn reparent_from_id_append_multiple_siblings() {
    let mut tree = two_levels('a', &[('b', &['x']), ('c', &['d', 'e', 'f'])]);

    let c_id = tree.root().last_child().unwrap().id();
    let b_id = tree.root().first_child().unwrap().id();

    tree.root_mut()
        .first_child()
        .unwrap()
        .reparent_from_id_append(c_id);

    let b = tree.get(b_id).unwrap();
    let x = b.first_child().unwrap();
    let d = x.next_sibling().unwrap();
    let e = d.next_sibling().unwrap();
    let f = e.next_sibling().unwrap();

    assert_eq!(Some(b), x.parent());
    assert_eq!(Some(b), d.parent());
    assert_eq!(Some(b), e.parent());
    assert_eq!(Some(b), f.parent());
}

#[test]
fn reparent_from_id_prepend_multiple_siblings() {
    let mut tree = two_levels('a', &[('b', &['x']), ('c', &['d', 'e', 'f'])]);

    let c_id = tree.root().last_child().unwrap().id();
    let b_id = tree.root().first_child().unwrap().id();

    tree.root_mut()
        .first_child()
        .unwrap()
        .reparent_from_id_prepend(c_id);

    let b = tree.get(b_id).unwrap();
    let d = b.first_child().unwrap();
    let e = d.next_sibling().unwrap();
    let f = e.next_sibling().unwrap();
    let x = f.next_sibling().unwrap();

    assert_eq!(Some(b), d.parent());
    assert_eq!(Some(b), e.parent());
    assert_eq!(Some(b), f.parent());
    assert_eq!(Some(b), x.parent());
}

#[test]
fn into() {
    let mut tree = Tree::new('a');
    let node_ref: NodeRef<_> = tree.root_mut().into();
    assert_eq!(&'a', node_ref.value());
}

fn child_values(node: NodeRef<char>) -> Vec<char> {
    let mut out = Vec::new();
    let mut it = node.children();
    while let Some(n) = it.next() {
        out.push(*n.value());
    }
    out
}

fn child_values_rev(node: NodeRef<char>) -> Vec<char> {
    let mut out = Vec::new();
    let mut it = node.children();
    while let Some(n) = it.next_back() {
        out.push(*n.value());
    }
    out
}

#[test]
fn children_follow_the_edits() {
    let mut tree = Tree::new('a');
    let c = tree.root_mut().append('c').id();
    tree.root_mut().prepend('b');
    tree.get_mut(c).unwrap().insert_after('e');
    let d = tree.get_mut(c).unwrap().insert_after('d').id();
    tree.get_mut(c).unwrap().insert_before('x');
    assert_eq!(vec!['b', 'x', 'c', 'd', 'e'], child_values(tree.root()));
    assert_eq!(vec!['e', 'd', 'c', 'x', 'b'], child_values_rev(tree.root()));

    tree.get_mut(d).unwrap().detach();
    assert_eq!(vec!['b', 'x', 'c', 'e'], child_values(tree.root()));
    assert_eq!(vec!['e', 'c', 'x', 'b'], child_values_rev(tree.root()));

    tree.root_mut().first_child().unwrap().detach();
    tree.root_mut().last_child().unwrap().detach();
    assert_eq!(vec!['x', 'c'], child_values(tree.root()));
    assert_eq!(vec!['c', 'x'], child_values_rev(tree.root()));
}

#[test]
fn a_node_is_among_the_children_of_its_parent_unless_it_is_an_orphan() {
    let mut tree = two_levels('a', &[('b', &['c', 'd']), ('e', &['f', 'g'])]);
    let e = tree.root().last_child().unwrap().id();
    tree.orphan('z');
    tree.get_mut(e).unwrap().detach();
    let mut it = tree.nodes();
    while let Some(n) = it.next() {
        match n.parent() {
            Some(p) => assert!(p.index_of_child(&n).is_some()),
            None => {
                let mut others = tree.nodes();
                while let Some(p) = others.next() {
                    assert!(p.index_of_child(&n).is_none());
                }
            }
        }
    }
    assert!(tree.get(e).unwrap().parent().is_none());
    assert_eq!(vec!['f', 'g'], child_values(tree.get(e).unwrap()));
}

#[test]
fn detach_twice_is_detach_once() {
    let mut once = two_levels('a', &[('b', &['c', 'd']), ('e', &['f', 'g'])]);
    let mut twice = two_levels('a', &[('b', &['c', 'd']), ('e', &['f', 'g'])]);
    once.root_mut().first_child().unwrap().detach();
    {
        let mut root = twice.root_mut();
        let mut b = root.first_child().unwrap();
        b.detach();
        b.detach();
    }
    assert_eq!(once, twice);
    assert_eq!(vec!['e'], child_values(once.root()));
    let mut root_only = Tree::new('a');
    root_only.root_mut().detach();
    assert_eq!(Tree::new('a'), root_only);
}

#[test]
fn detach_of_an_only_child_a_first_and_a_last() {
    let mut tree = Tree::new('a');
    let b = tree.root_mut().append('b').id();
    tree.get_mut(b).unwrap().detach();
    assert!(!tree.root().has_children());
    assert_eq!(None, tree.root().first_child());
    assert_eq!(None, tree.root().last_child());

    tree.root_mut().append_id(b);
    let c = tree.root_mut().append('c').id();
    let d = tree.root_mut().append('d').id();
    tree.get_mut(b).unwrap().detach();
    assert_eq!(vec!['c', 'd'], child_values(tree.root()));
    assert_eq!(None, tree.get(c).unwrap().prev_sibling());
    tree.get_mut(d).unwrap().detach();
    assert_eq!(vec!['c'], child_values(tree.root()));
    assert_eq!(None, tree.get(c).unwrap().next_sibling());
    assert_eq!(tree.get(c), tree.root().last_child());
}

#[test]
fn ids_link_orphans_with_their_children() {
    let mut tree = two_levels('a', &[('b', &['c', 'd']), ('e', &['f', 'g'])]);
    let b = tree.root().first_child().unwrap().id();
    let e = tree.root().last_child().unwrap().id();
    tree.get_mut(e).unwrap().detach();
    tree.get_mut(b).unwrap().prepend_id(e);
    assert_eq!(vec!['e', 'c', 'd'], child_values(tree.get(b).unwrap()));
    assert_eq!(vec!['f', 'g'], child_values(tree.get(e).unwrap()));
    assert_eq!(tree.get(b), tree.get(e).unwrap().parent());

    tree.get_mut(e).unwrap().detach();
    tree.get_mut(b).unwrap().append_id(e);
    assert_eq!(vec!['c', 'd', 'e'], child_values(tree.get(b).unwrap()));

    tree.get_mut(e).unwrap().detach();
    let d = tree.get(b).unwrap().last_child().unwrap().id();
    tree.get_mut(d).unwrap().insert_id_before(e);
    assert_eq!(vec!['c', 'e', 'd'], child_values(tree.get(b).unwrap()));

    tree.get_mut(e).unwrap().detach();
    tree.get_mut(d).unwrap().insert_id_after(e);
    assert_eq!(vec!['c', 'd', 'e'], child_values(tree.get(b).unwrap()));
    assert_eq!(vec!['e', 'd', 'c'], child_values_rev(tree.get(b).unwrap()));
    assert_eq!(vec!['b'], child_values(tree.root()));
}

#[test]
fn reparent_moves_all_children_in_order() {
    let mut tree = two_levels('a', &[('b', &['x', 'y']), ('c', &['d', 'e', 'f'])]);
    let b = tree.root().first_child().unwrap().id();
    let c = tree.root().last_child().unwrap().id();
    tree.get_mut(b).unwrap().reparent_from_id_append(c);
    assert_eq!(vec!['x', 'y', 'd', 'e', 'f'], child_values(tree.get(b).unwrap()));
    assert_eq!(vec!['f', 'e', 'd', 'y', 'x'], child_values_rev(tree.get(b).unwrap()));
    assert!(!tree.get(c).unwrap().has_children());
    let mut it = tree.get(b).unwrap().children();
    while let Some(n) = it.next() {
        assert_eq!(tree.get(b), n.parent());
    }

    tree.get_mut(c).unwrap().reparent_from_id_prepend(b);
    assert_eq!(vec!['x', 'y', 'd', 'e', 'f'], child_values(tree.get(c).unwrap()));
    assert!(!tree.get(b).unwrap().has_children());

    let before = tree.clone();
    tree.get_mut(b).unwrap().reparent_from_id_append(b);
    tree.get_mut(c).unwrap().reparent_from_id_append(c);
    tree.get_mut(c).unwrap().reparent_from_id_prepend(b);
    assert_eq!(before, tree);
}

#[test]
fn value_written_through_a_cursor_stays() {
    let mut tree = a_bc();
    *tree.root_mut().first_child().unwrap().value() = 'x';
    assert_eq!(vec!['x', 'c'], child_values(tree.root()));
    let mut root = tree.root_mut();
    root.tree().orphan('z');
    assert_eq!(&'a', root.value());
}

fn numbers(root: i32, groups: &[(i32, &[i32])]) -> Tree<i32> {
    let mut tree = Tree::new(root);
    for (value, children) in groups {
        let mut r = tree.root_mut();
        let mut node = r.append(*value);
        for c in children.iter() {
            node.append(*c);
        }
    }
    tree
}

#[test]
fn for_each_descendant() {
    let mut tree = numbers(
        1,
        &[(2, &[3, 4, 5, 6]), (3, &[]), (4, &[0, 1]), (5, &[]), (6, &[1, 2])],
    );
    {
        let mut root = tree.root_mut();
        root.for_each_descendant(|n: &mut NodeMut<i32>| *n.value() += 1);
    }

    let tree2 = numbers(
        2,
        &[(3, &[4, 5, 6, 7]), (4, &[]), (5, &[1, 2]), (6, &[]), (7, &[2, 3])],
    );

    assert_eq!(tree, tree2);
}

#[test]
fn for_each_descendant_stays_in_the_subtree() {
    let mut tree = numbers(1, &[(2, &[3, 4]), (5, &[6]), (7, &[])]);
    {
        let mut root = tree.root_mut();
        let mut first = root.first_child().unwrap();
        first.for_each_descendant(|n: &mut NodeMut<i32>| *n.value() *= 10);
        let mut last = root.last_child().unwrap();
        last.for_each_descendant(|n: &mut NodeMut<i32>| *n.value() += 1);
    }
    assert_eq!(numbers(1, &[(20, &[30, 40]), (5, &[6]), (8, &[])]), tree);
}

#[test]
fn for_each_on_a_node_without_neighbours_runs_nothing() {
    let mut tree = Tree::new(1);
    {
        let mut root = tree.root_mut();
        root.for_each_child(|n: &mut NodeMut<i32>| *n.value() += 1);
        root.for_each_next_sibling(|n: &mut NodeMut<i32>| *n.value() += 1);
        root.for_each_prev_sibling(|n: &mut NodeMut<i32>| *n.value() += 1);
    }
    assert_eq!(Tree::new(1), tree);
    tree.root_mut().for_each_sibling(|n: &mut NodeMut<i32>| *n.value() += 1);
    assert_eq!(Tree::new(2), tree);
}
