use ego_tree::iter::Edge;
use ego_tree::{NodeRef, Tree};

fn a_bcd() -> Tree<char> {
    let mut tree = Tree::new('a');
    tree.root_mut().append('b');
    tree.root_mut().append('c');
    tree.root_mut().append('d');
    tree
}

#[test]
fn values() {
    let tree = a_bcd();
    let mut out = Vec::new();
    let mut it = tree.values();
    while let Some(v) = it.next() {
        out.push(v);
    }
    assert_eq!(vec![&'a', &'b', &'c', &'d'], out);
}

#[test]
fn values_mut() {
    let mut tree = a_bcd();

    {
        let mut it = tree.values_mut();
        while let Some(c) = it.next() {
            *c = c.to_ascii_uppercase();
        }
    }

    let mut out = Vec::new();
    let mut it = tree.values();
    while let Some(v) = it.next() {
        out.push(v);
    }
    assert_eq!(vec![&'A', &'B', &'C', &'D'], out);
}

#[test]
fn into_values() {
    let tree = a_bcd();
    let mut out = Vec::new();
    let mut it = tree.into_values();
    while let Some(v) = it.next() {
        out.push(v);
    }
    assert_eq!(vec!['a', 'b', 'c', 'd'], out);
}

#[test]
fn ancestors() {
    let mut tree = Tree::new('a');
    tree.root_mut().append('b').append('c').append('d');
    let d = tree
        .root()
        .last_child()
        .unwrap()
        .last_child()
        .unwrap()
        .last_child()
        .unwrap();
    let mut out = Vec::new();
    let mut it = d.ancestors();
    while let Some(n) = it.next() {
        out.push(n.value());
    }
    assert_eq!(vec![&'c', &'b', &'a'], out);
}

#[test]
fn prev_siblings() {
    let tree = a_bcd();
    let mut out = Vec::new();
    let mut it = tree.root().last_child().unwrap().prev_siblings();
    while let Some(n) = it.next() {
        out.push(n.value());
    }
    assert_eq!(vec![&'c', &'b'], out);
}

#[test]
fn next_siblings() {
    let tree = a_bcd();
    let mut out = Vec::new();
    let mut it = tree.root().first_child().unwrap().next_siblings();
    while let Some(n) = it.next() {
        out.push(n.value());
    }
    assert_eq!(vec![&'c', &'d'], out);
}

#[test]
fn children() {
    let tree = a_bcd();
    let mut out = Vec::new();
    let mut it = tree.root().children();
    while let Some(n) = it.next() {
        out.push(n.value());
    }
    assert_eq!(vec![&'b', &'c', &'d'], out);
}

#[test]
fn children_rev() {
    let tree = a_bcd();
    let mut out = Vec::new();
    let mut it = tree.root().children();
    while let Some(n) = it.next_back() {
        out.push(n.value());
    }
    assert_eq!(vec![&'d', &'c', &'b'], out);
}

#[test]
fn first_children() {
    let mut tree = Tree::new('a');
    {
        let mut root = tree.root_mut();
        let mut b = root.append('b');
        b.append('d');
        b.append('e');
    }
    tree.root_mut().append('c');
    let mut out = Vec::new();
    let mut it = tree.root().first_children();
    while let Some(n) = it.next() {
        out.push(n.value());
    }
    assert_eq!(vec![&'b', &'d'], out);
}

#[test]
fn last_children() {
    let mut tree = Tree::new('a');
    tree.root_mut().append('b');
    {
        let mut root = tree.root_mut();
        let mut c = root.append('c');
        c.append('d');
        c.append('e');
    }
    let mut out = Vec::new();
    let mut it = tree.root().last_children();
    while let Some(n) = it.next() {
        out.push(n.value());
    }
    assert_eq!(vec![&'c', &'e'], out);
}

fn sample() -> Tree<char> {
    let mut tree = Tree::new('a');
    {
        let mut a = tree.root_mut();
        a.append('b');
        let mut c = a.append('c');
        c.append('d');
        c.append('e');
    }
    tree.root_mut().append('f');
    tree
}

fn edges(start: NodeRef<char>) -> Vec<(bool, char)> {
    let mut out = Vec::new();
    let mut it = start.traverse();
    while let Some(edge) = it.next() {
        match edge {
            Edge::Open(n) => out.push((true, *n.value())),
            Edge::Close(n) => out.push((false, *n.value())),
        }
    }
    out
}

#[test]
fn sample_tree_walks() {
    let tree = sample();
    let root = tree.root();
    let c = root.first_child().unwrap().next_sibling().unwrap();
    let d = c.first_child().unwrap();

    let mut up = Vec::new();
    let mut it = d.ancestors();
    while let Some(n) = it.next() {
        up.push(*n.value());
    }
    assert_eq!(vec!['c', 'a'], up);

    let mut kids = Vec::new();
    let mut it = root.children();
    while let Some(n) = it.next() {
        kids.push(*n.value());
    }
    assert_eq!(vec!['b', 'c', 'f'], kids);

    assert_eq!(
        vec![
            (true, 'a'),
            (true, 'b'),
            (false, 'b'),
            (true, 'c'),
            (true, 'd'),
            (false, 'd'),
            (true, 'e'),
            (false, 'e'),
            (false, 'c'),
            (true, 'f'),
            (false, 'f'),
            (false, 'a'),
        ],
        edges(root)
    );
}

#[test]
fn traverse_of_a_subtree_stays_in_it() {
    let tree = sample();
    let c = tree.root().first_child().unwrap().next_sibling().unwrap();
    assert_eq!(
        vec![
            (true, 'c'),
            (true, 'd'),
            (false, 'd'),
            (true, 'e'),
            (false, 'e'),
            (false, 'c'),
        ],
        edges(c)
    );
    let b = tree.root().first_child().unwrap();
    assert_eq!(vec![(true, 'b'), (false, 'b')], edges(b));
}

#[test]
fn descendants_come_parent_first() {
    let tree = sample();
    let mut out = Vec::new();
    let mut it = tree.root().descendants();
    while let Some(n) = it.next() {
        out.push(*n.value());
    }
    assert_eq!(vec!['a', 'b', 'c', 'd', 'e', 'f'], out);

    let c = tree.root().first_child().unwrap().next_sibling().unwrap();
    let mut out = Vec::new();
    let mut it = c.descendants();
    while let Some(n) = it.next() {
        out.push(*n.value());
    }
    assert_eq!(vec!['c', 'd', 'e'], out);
}

#[test]
fn children_from_both_ends_meet_once() {
    let tree = a_bcd();
    let mut it = tree.root().children();
    assert_eq!(Some(&'b'), it.next().map(|n| n.value()));
    assert_eq!(Some(&'d'), it.next_back().map(|n| n.value()));
    assert_eq!(Some(&'c'), it.next().map(|n| n.value()));
    assert_eq!(None, it.next());
    assert_eq!(None, it.next_back());

    let mut it = tree.root().children();
    assert_eq!(Some(&'d'), it.next_back().map(|n| n.value()));
    assert_eq!(Some(&'c'), it.next_back().map(|n| n.value()));
    assert_eq!(Some(&'b'), it.next_back().map(|n| n.value()));
    assert_eq!(None, it.next());
}

#[test]
fn children_of_a_leaf_are_none() {
    let tree = Tree::new('a');
    let mut it = tree.root().children();
    assert_eq!(None, it.next());
    assert_eq!(None, it.next_back());
    let mut it = tree.root().ancestors();
    assert_eq!(None, it.next());
}

#[test]
fn nodes_come_in_creation_order() {
    let mut tree = a_bcd();
    tree.orphan('x');
    let mut out = Vec::new();
    let mut it = tree.nodes();
    while let Some(n) = it.next() {
        out.push((*n.value(), n.parent().map(|p| *p.value())));
    }
    assert_eq!(
        vec![
            ('a', None),
            ('b', Some('a')),
            ('c', Some('a')),
            ('d', Some('a')),
            ('x', None)
        ],
        out
    );
}
