use ego_tree::{NodeRef, Shape, Tree};

fn sample() -> Tree<char> {
    let mut tree = Tree::new('a');
    {
        let mut a = tree.root_mut();
        a.append('b');
        let mut c = a.append('c');
        c.append('d');
        c.append('e');
    }
    tree.root_mut().append('f');
    tree
}

fn owned(shape: &Shape<&char>) -> Shape<char> {
    Shape {
        value: *shape.value,
        children: shape.children.iter().map(owned).collect(),
    }
}

fn written(shape: &Shape<char>) -> String {
    let mut out = String::new();
    out.push(shape.value);
    if !shape.children.is_empty() {
        out.push('(');
        for c in shape.children.iter() {
            out.push_str(&written(c));
        }
        out.push(')');
    }
    out
}

fn walked(node: NodeRef<char>) -> String {
    let mut out = String::new();
    out.push(*node.value());
    if node.has_children() {
        out.push('(');
        let mut it = node.children();
        while let Some(c) = it.next() {
            out.push_str(&walked(c));
        }
        out.push(')');
    }
    out
}

#[test]
fn shape_writes_down_values_and_children_in_order() {
    let tree = sample();
    let shape = owned(&tree.root().shape());
    assert_eq!("a(bc(de)f)", written(&shape));
    assert_eq!('a', shape.value);
    assert_eq!(3, shape.children.len());
    assert_eq!(2, shape.children[1].children.len());
    assert_eq!('e', shape.children[1].children[1].value);

    let c = tree.root().first_child().unwrap().next_sibling().unwrap();
    assert_eq!("c(de)", written(&owned(&c.shape())));
}

#[test]
fn from_shape_builds_what_is_written() {
    let shape = Shape {
        value: 'r',
        children: vec![
            Shape { value: 'a', children: vec![] },
            Shape {
                value: 'b',
                children: vec![
                    Shape { value: 'd', children: vec![] },
                    Shape { value: 'e', children: vec![] },
                ],
            },
            Shape { value: 'c', children: vec![] },
        ],
    };
    let tree = Tree::from_shape(shape);
    assert_eq!("r(ab(de)c)", walked(tree.root()));
    let b = tree.root().first_child().unwrap().next_sibling().unwrap();
    assert_eq!(Some(tree.root()), b.parent());
    assert_eq!(&'e', b.last_child().unwrap().value());
    assert_eq!(None, tree.root().parent());
}

#[test]
fn round_trip_keeps_the_shape_and_not_the_ids() {
    let mut tree = sample();
    let f = tree.root().last_child().unwrap().id();
    tree.get_mut(f).unwrap().detach();
    tree.root_mut().prepend_id(f);
    let before = owned(&tree.root().shape());
    assert_eq!("a(fbc(de))", written(&before));

    let rebuilt = Tree::from_shape(owned(&tree.root().shape()));
    let after = owned(&rebuilt.root().shape());
    assert_eq!(written(&before), written(&after));
    assert_eq!(walked(tree.root()), walked(rebuilt.root()));
    assert!(rebuilt.get(f).is_none());
    assert!(rebuilt.get(tree.root().id()).is_none());
    assert!(tree != rebuilt);
}

#[test]
fn shape_of_a_single_node() {
    let tree = Tree::from_shape(Shape { value: 7, children: vec![] });
    assert_eq!(Tree::new(7), tree);
    let shape = tree.root().shape();
    assert_eq!(&7, shape.value);
    assert!(shape.children.is_empty());
}
