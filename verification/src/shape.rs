//! A tree written down as nested values: a value and the shapes of its
//! children. It keeps values, child counts and the order of children, and
//! forgets ids.

use vstd::prelude::*;
use crate::model::TreeView;
use crate::node_ref::NodeRef;
use crate::tree::Tree;

verus! {

/// A value and, first to last, what is nested under it.
#[verifier::ext_equal]
pub struct Nested<T> {
    pub value: T,
    pub children: Seq<Nested<T>>,
}

/// A value and, first to last, the shapes of the children under it.
#[derive(Debug)]
pub struct Shape<T> {
    pub value: T,
    pub children: Vec<Shape<T>>,
}

impl<T> Shape<T> {
    /// The shape as nested values.
    pub open spec fn nested(self) -> Nested<T>
        decreases self,
    {
        Nested {
            value: self.value,
            children: Seq::new(
                self.children@.len(),
                |j: int|
                    if 0 <= j < self.children@.len() {
                        self.children@[j].nested()
                    } else {
                        arbitrary()
                    },
            ),
        }
    }
}

impl<'a, T> Nested<&'a T> {
    /// The same nesting with the values themselves in place of references to
    /// them.
    pub open spec fn owned(self) -> Nested<T>
        decreases self,
    {
        Nested {
            value: *self.value,
            children: Seq::new(
                self.children.len(),
                |j: int|
                    if 0 <= j < self.children.len() {
                        self.children[j].owned()
                    } else {
                        arbitrary()
                    },
            ),
        }
    }
}

impl<T> View for Shape<T> {
    type V = Nested<T>;

    open spec fn view(&self) -> Nested<T> {
        self.nested()
    }
}

impl<T> TreeView<T> {
    /// The subtree of `i` written down as nested values.
    pub open spec fn nested(self, i: int) -> Nested<T>
        decreases self.room(i),
        when self.valid() && self.is_forest() && self.has(i)
        via Self::nested_decreases
    {
        Nested {
            value: self.values[i],
            children: Seq::new(
                self.children[i].len(),
                |j: int|
                    if 0 <= j < self.children[i].len() {
                        self.nested(self.children[i][j])
                    } else {
                        arbitrary()
                    },
            ),
        }
    }

    #[via_fn]
    proof fn nested_decreases(self, i: int) {
        assert forall|j: int| 0 <= j < self.children[i].len() implies self.room(
            #[trigger] self.children[i][j],
        ) < self.room(i) && self.has(self.children[i][j]) by {
            self.lemma_room(self.children[i][j]);
        }
    }

    /// Two nodes with the same nesting carry the same value and have the same
    /// number of children, and their children have, one by one in their order,
    /// the same nesting.
    pub proof fn lemma_nested_same(self, i: int, other: Self, j: int)
        requires
            self.valid(),
            self.is_forest(),
            self.has(i),
            other.valid(),
            other.is_forest(),
            other.has(j),
            self.nested(i) == other.nested(j),
        ensures
            self.values[i] == other.values[j],
            self.children[i].len() == other.children[j].len(),
            forall|k: int|
                0 <= k < self.children[i].len() ==> self.nested(#[trigger] self.children[i][k])
                    == other.nested(other.children[j][k]),
    {
        let a = self.nested(i);
        let b = other.nested(j);
        assert(a.children.len() == self.children[i].len());
        assert(b.children.len() == other.children[j].len());
        assert forall|k: int| 0 <= k < self.children[i].len() implies self.nested(
            #[trigger] self.children[i][k],
        ) == other.nested(other.children[j][k]) by {
            assert(a.children[k] == self.nested(self.children[i][k]));
            assert(b.children[k] == other.nested(other.children[j][k]));
        }
    }

    /// A tree that is built from what was written down of another tree has the
    /// nesting of that tree: the same values, child counts and order of
    /// children, whatever the slots and the tag.
    pub proof fn lemma_round_trip(self, written: Nested<&T>, rebuilt: Self)
        requires
            written.owned() == self.nested(0),
            rebuilt.nested(0) == written.owned(),
        ensures
            rebuilt.nested(0) == self.nested(0),
    {
    }

    /// What is nested under a node depends on its subtree alone: on the values
    /// and the child lists of the nodes under it.
    pub proof fn lemma_nested_local(self, other: Self, x: int)
        requires
            self.valid(),
            self.is_forest(),
            other.valid(),
            other.is_forest(),
            self.has(x),
            other.has(x),
            forall|y: int|
                self.has(y) && #[trigger] self.reaches(y, x) ==> other.children[y]
                    == self.children[y] && other.values[y] == self.values[y],
        ensures
            other.nested(x) == self.nested(x),
        decreases self.room(x),
    {
        self.lemma_reaches_self(x);
        let kids = self.children[x];
        assert forall|j: int| 0 <= j < kids.len() implies other.nested(#[trigger] kids[j])
            == self.nested(kids[j]) by {
            let c = kids[j];
            assert(self.has(self.children[x][j]) && self.parents[self.children[x][j]] == Some(x));
            assert(other.has(other.children[x][j]));
            self.lemma_room(c);
            assert forall|y: int| self.has(y) && #[trigger] self.reaches(y, c) implies
                other.children[y] == self.children[y] && other.values[y] == self.values[y] by {
                let k = choose|k: nat| #[trigger] self.nth_ancestor(y, k) == Some(c);
                self.lemma_climb_on(y, c, k);
            }
            self.lemma_nested_local(other, c);
        }
        assert(other.nested(x).children =~= self.nested(x).children);
    }

    /// A node that reaches a node reaches the parent of that node.
    pub proof fn lemma_climb_on(self, y: int, c: int, k: nat)
        requires
            self.nth_ancestor(y, k) == Some(c),
            self.parents[c] is Some,
        ensures
            self.nth_ancestor(y, k + 1) == self.parents[c],
            self.reaches(y, self.parents[c].unwrap()),
        decreases k,
    {
        if k > 0 {
            let q = self.parents[y].unwrap();
            self.lemma_climb_on(q, c, (k - 1) as nat);
            assert(self.nth_ancestor(y, k + 1) == self.nth_ancestor(q, k));
        } else {
            let p = self.parents[c].unwrap();
            assert(self.nth_ancestor(p, 0) == Some(p));
            assert(self.nth_ancestor(y, 1) == Some(p));
        }
    }
}

impl<T> TreeView<T> {
    /// `other` is this tree after nodes were added under `p`: the nodes that
    /// were there are as they were, but for the child list of `p`, and every
    /// new node hangs under `p` or under a new node.
    pub open spec fn grown_under(self, other: Self, p: int) -> bool {
        &&& self.len() <= other.len()
        &&& forall|i: int|
            0 <= i < self.len() ==> {
                &&& #[trigger] other.values[i] == self.values[i]
                &&& other.parents[i] == self.parents[i]
                &&& i != p ==> other.children[i] == self.children[i]
            }
        &&& forall|i: int|
            self.len() <= i < other.len() ==> match #[trigger] other.parents[i] {
                Some(q) => q == p || q >= self.len(),
                None => false,
            }
    }

    /// A node does not hang under its own child.
    pub proof fn lemma_parent_not_under_child(self, p: int, c: int)
        requires
            self.is_forest(),
            0 <= p < self.parents.len(),
            0 <= c < self.parents.len(),
            self.parents[c] == Some(p),
        ensures
            !self.reaches(p, c),
    {
        if self.reaches(p, c) {
            let k = choose|k: nat| #[trigger] self.nth_ancestor(p, k) == Some(c);
            self.lemma_reaches_rank(p, c, k);
            assert(self.ranked_by(self.some_rank()));
        }
    }
}

/// The entries in the opposite order.
fn reversed<U>(v: Vec<U>) -> (r: Vec<U>)
    ensures
        r@ == v@.reverse(),
{
    let mut v = v;
    let ghost all = v@;
    let mut r: Vec<U> = Vec::new();
    while v.len() > 0
        invariant
            v@.len() <= all.len(),
            r@.len() == all.len() - v@.len(),
            forall|i: int| 0 <= i < v@.len() ==> #[trigger] v@[i] == all[i],
            forall|i: int| 0 <= i < r@.len() ==> #[trigger] r@[i] == all[all.len() - 1 - i],
        decreases v@.len(),
    {
        let x = v.pop().unwrap();
        r.push(x);
    }
    proof {
        assert(r@ =~= all.reverse());
    }
    r
}

impl<T> Tree<T> {
    /// Builds under the childless node `p` the subtrees that `children` write
    /// down, first to last.
    fn graft_all(&mut self, p: usize, children: Vec<Shape<T>>)
        requires
            old(self).wf(),
            old(self)@.is_forest(),
            old(self)@.has(p as int),
            old(self)@.children[p as int].len() == 0,
        ensures
            final(self).wf(),
            final(self)@.is_forest(),
            final(self).owner() == old(self).owner(),
            old(self)@.grown_under(final(self)@, p as int),
            final(self)@.nested(p as int) == (Shape {
                value: old(self)@.values[p as int],
                children,
            })@,
        decreases children,
    {
        let ghost start = self@;
        let ghost shapes = children@;
        let ghost whole = children;
        let mut rest = reversed(children);
        let ghost mut made: Seq<int> = Seq::empty();
        proof {
            self.lemma_view_valid();
            assert(start.children[p as int] =~= made);
        }
        while rest.len() > 0
            invariant
                self.wf(),
                self@.is_forest(),
                self@.valid(),
                start.valid(),
                self.owner() == old(self).owner(),
                start.has(p as int),
                start.grown_under(self@, p as int),
                shapes == whole@,
                whole == children,
                rest@.len() + made.len() == shapes.len(),
                forall|i: int|
                    0 <= i < rest@.len() ==> #[trigger] rest@[i] == shapes[shapes.len() - 1 - i],
                self@.children[p as int] == made,
                forall|m: int|
                    0 <= m < made.len() ==> self@.nested(#[trigger] made[m]) == shapes[m]@,
            decreases rest@.len(),
        {
            let ghost before = self@;
            let ghost j = made.len() as int;
            let child = rest.pop().unwrap();
            proof {
                assert(child == shapes[j]);
                assert(child == whole@[j]);
                assert(decreases_to!(whole => whole[j]));
            }
            let c: usize = self.graft(p, child);
            proof {
                let after = self@;
                self.lemma_view_valid();
                assert forall|m: int| 0 <= m < made.len() implies after.nested(#[trigger] made[m])
                    == shapes[m]@ by {
                    let x = made[m];
                    assert(before.has(before.children[p as int][m]));
                    assert(before.parents[before.children[p as int][m]] == Some(p as int));
                    before.lemma_parent_not_under_child(p as int, x);
                    assert forall|y: int| before.has(y) && #[trigger] before.reaches(y, x) implies
                        after.children[y] == before.children[y] && after.values[y]
                        == before.values[y] by {
                        assert(y != p as int);
                        assert(after.values[y] == before.values[y]);
                    }
                    assert(before.has(x));
                    assert(after.has(x));
                    before.lemma_nested_local(after, x);
                }
                assert(after.nested(c as int) == shapes[j]@);
                assert forall|i: int| 0 <= i < start.len() implies {
                    &&& #[trigger] after.values[i] == start.values[i]
                    &&& after.parents[i] == start.parents[i]
                    &&& i != p as int ==> after.children[i] == start.children[i]
                } by {
                    assert(before.values[i] == start.values[i]);
                    assert(after.values[i] == before.values[i]);
                }
                assert forall|i: int| start.len() <= i < after.len() implies match
                #[trigger] after.parents[i] {
                    Some(q) => q == p as int || q >= start.len(),
                    None => false,
                } by {
                    if i < before.len() {
                        assert(before.parents[i] is Some);
                        assert(after.values[i] == before.values[i]);
                    }
                }
                made = made.push(c as int);
            }
        }
        proof {
            let after = self@;
            let want = (Shape { value: start.values[p as int], children: whole })@;
            assert(made.len() == shapes.len());
            assert(whole@.len() == shapes.len());
            assert(want.children.len() == whole@.len());
            assert(after.values[p as int] == start.values[p as int]);
            assert(after.has(p as int));
            assert(after.nested(p as int).children.len() == made.len());
            assert(want.children.len() == shapes.len());
            assert forall|m: int| 0 <= m < made.len() implies after.nested(p as int).children[m]
                == want.children[m] by {
                assert(after.nested(made[m]) == shapes[m]@);
            }
            assert(after.nested(p as int).children =~= want.children);
            assert(after.nested(p as int) =~= want);
        }
    }

    /// Builds the subtree that `shape` writes down and makes it the last child
    /// of `p`. Returns the slot of its root.
    fn graft(&mut self, p: usize, shape: Shape<T>) -> (c: usize)
        requires
            old(self).wf(),
            old(self)@.is_forest(),
            old(self)@.has(p as int),
        ensures
            final(self).wf(),
            final(self)@.is_forest(),
            final(self).owner() == old(self).owner(),
            c == old(self)@.len(),
            old(self)@.grown_under(final(self)@, p as int),
            final(self)@.children[p as int] == old(self)@.children[p as int].push(c as int),
            final(self)@.nested(c as int) == shape@,
        decreases shape,
    {
        let ghost start = self@;
        let Shape { value, children } = shape;
        proof {
            self.lemma_view_valid();
            start.lemma_push_orphan_keeps(value, p as int);
            start.lemma_grow_forest(value, p as int, start.children[p as int].len() as int);
        }
        let c: usize = self.push_orphan(value);
        self.link_last_child(p, c);
        let ghost linked = self@;
        proof {
            self.lemma_view_valid();
            start.push_orphan(value).lemma_attach(
                p as int,
                start.children[p as int].len() as int,
                c as int,
            );
        }
        self.graft_all(c, children);
        proof {
            let after = self@;
            assert(linked.children[c as int] =~= Seq::empty());
            assert forall|i: int| 0 <= i < start.len() implies {
                &&& #[trigger] after.values[i] == start.values[i]
                &&& after.parents[i] == start.parents[i]
                &&& i != p as int ==> after.children[i] == start.children[i]
            } by {
                assert(after.values[i] == linked.values[i]);
            }
            assert forall|i: int| start.len() <= i < after.len() implies match
            #[trigger] after.parents[i] {
                Some(q) => q == p as int || q >= start.len(),
                None => false,
            } by {
                if i < linked.len() {
                    assert(after.values[i] == linked.values[i]);
                }
            }
            assert(after.values[p as int] == linked.values[p as int]);
            assert(after.values[c as int] == linked.values[c as int]);
        }
        c
    }

    /// Builds the tree that `shape` writes down: the root carries its value,
    /// and the children of every node come in the order written.
    pub fn from_shape(shape: Shape<T>) -> (tree: Self)
        ensures
            tree.wf(),
            tree@.is_forest(),
            tree@.nested(0) == shape@,
    {
        let Shape { value, children } = shape;
        let mut tree = Tree::new(value);
        tree.graft_all(0, children);
        tree
    }
}

impl<'a, T> NodeRef<'a, T> {
    /// Writes down the subtree of this node: its value and, first to last, the
    /// shapes of its children. The tree must be a forest, or there would be no
    /// end to it.
    pub fn shape(&self) -> (s: Shape<&'a T>)
        requires
            self.wf(),
            self.arena()@.is_forest(),
        ensures
            s@.owned() == self.arena()@.nested(self.index()),
        decreases self.arena()@.room(self.index()),
    {
        let ghost view = self.arena()@;
        let ghost kids = view.children[self.index()];
        let mut children: Vec<Shape<&'a T>> = Vec::new();
        let mut it = self.children();
        let mut next = it.next();
        proof {
            self.arena().lemma_view_valid();
        }
        while next.is_some()
            invariant
                self.wf(),
                view == self.arena()@,
                view.valid(),
                view.is_forest(),
                kids == view.children[self.index()],
                it.wf(),
                children@.len() <= kids.len(),
                next == if children@.len() < kids.len() {
                    Some(self.child_nodes()[children@.len() as int])
                } else {
                    None
                },
                it@ == self.child_nodes().skip(
                    if children@.len() < kids.len() {
                        children@.len() as int + 1
                    } else {
                        kids.len() as int
                    },
                ),
                forall|m: int|
                    0 <= m < children@.len() ==> (#[trigger] children@[m])@.owned() == view.nested(
                        kids[m],
                    ),
            decreases kids.len() - children@.len(),
        {
            let child = next.unwrap();
            let ghost k = children@.len() as int;
            proof {
                assert(view.has(view.children[self.index()][k]));
                self.lemma_on(kids[k]);
                view.lemma_room(kids[k]);
                assert(view.parents[view.children[self.index()][k]] == Some(self.index()));
            }
            let shape = child.shape();
            children.push(shape);
            next = it.next();
            proof {
                if k + 1 < kids.len() {
                    assert(it@ =~= self.child_nodes().skip(k + 2));
                } else {
                    assert(it@ =~= self.child_nodes().skip(kids.len() as int));
                }
            }
        }
        let s = Shape { value: self.value(), children };
        proof {
            assert(s@.owned().children =~= view.nested(self.index()).children);
            assert(s@.owned() =~= view.nested(self.index()));
        }
        s
    }
}

} // verus!
