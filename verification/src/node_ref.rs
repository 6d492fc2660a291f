//! Read-only cursors.

use vstd::prelude::*;
use crate::model::as_index;
use crate::tree::{NodeId, Tree};

verus! {

/// A read-only cursor on one node of a tree.
#[derive(Debug)]
pub struct NodeRef<'a, T> {
    tree: &'a Tree<T>,
    index: usize,
}

impl<'a, T> Clone for NodeRef<'a, T> {
    fn clone(&self) -> (r: Self)
        ensures
            r == *self,
    {
        *self
    }
}

impl<'a, T> Copy for NodeRef<'a, T> {

}

impl<'a, T> NodeRef<'a, T> {
    /// The tree that the cursor looks at.
    pub closed spec fn arena(&self) -> Tree<T> {
        *self.tree
    }

    /// The slot that the cursor stands on.
    pub closed spec fn index(&self) -> int {
        self.index as int
    }

    /// The cursor stands on a node of a well-formed tree.
    pub open spec fn wf(&self) -> bool {
        self.arena().wf() && self.arena()@.has(self.index())
    }

    /// The cursor on slot `i` of `tree`.
    pub closed spec fn spec_at(tree: &'a Tree<T>, i: int) -> Self {
        NodeRef { tree, index: i as usize }
    }

    /// The cursor on slot `i` of the same tree.
    pub closed spec fn on(&self, i: int) -> Self {
        NodeRef { tree: self.tree, index: i as usize }
    }

    /// The cursor on `target` in the same tree, if there is a target.
    pub open spec fn toward(&self, target: Option<int>) -> Option<Self> {
        match target {
            Some(i) => Some(self.on(i)),
            None => None,
        }
    }

    /// `r` is the cursor on `target` in the same tree, or nothing where there
    /// is no target.
    pub open spec fn leads_to(&self, r: Option<Self>, target: Option<int>) -> bool {
        match target {
            Some(i) => r == Some(self.on(i)) && r.unwrap().wf() && r.unwrap().arena()
                == self.arena() && r.unwrap().index() == i,
            None => r is None,
        }
    }

    /// What `spec_at` stands on.
    pub proof fn lemma_spec_at(tree: &'a Tree<T>, i: int)
        requires
            0 <= i <= usize::MAX,
        ensures
            Self::spec_at(tree, i).arena() == *tree,
            Self::spec_at(tree, i).index() == i,
    {
    }

    /// Cursors on one tree that stand on one slot are the same cursor.
    pub proof fn lemma_same(&self, other: &Self)
        requires
            self.arena() == other.arena(),
        ensures
            forall|i: int| (#[trigger] self.on(i)) == other.on(i),
            self.index() == other.index() ==> *self == *other,
    {
    }

    /// A cursor is its tree and its slot, and no more.
    pub proof fn lemma_on(&self, i: int)
        requires
            self.arena().wf(),
            self.arena()@.has(i),
        ensures
            self.on(i).arena() == self.arena(),
            self.on(i).index() == i,
            self.on(i).wf(),
            self.on(self.index()) == *self,
            forall|j: int| (#[trigger] self.on(i).on(j)) == self.on(j),
    {
        self.arena().lemma_len_fits();
    }

    /// A cursor on slot `index` of `tree`.
    pub(crate) fn at(tree: &'a Tree<T>, index: usize) -> (r: Self)
        ensures
            r == Self::spec_at(tree, index as int),
            r.arena() == *tree,
            r.index() == index,
    {
        NodeRef { tree, index }
    }

    /// The slot that the cursor stands on.
    pub(crate) fn slot(&self) -> (i: usize)
        ensures
            i == self.index(),
    {
        self.index
    }

    /// The cursor on slot `target` of the same tree, if there is a target.
    fn step(&self, target: Option<usize>) -> (r: Option<Self>)
        requires
            self.arena().wf(),
            target matches Some(i) ==> self.arena()@.has(i as int),
        ensures
            self.leads_to(r, as_index(target)),
    {
        proof {
            self.arena().lemma_len_fits();
        }
        match target {
            Some(i) => Some(NodeRef { tree: self.tree, index: i }),
            None => None,
        }
    }

    /// The value of this node.
    pub fn value(&self) -> (v: &'a T)
        requires
            self.wf(),
        ensures
            *v == self.arena()@.values[self.index()],
    {
        self.tree.value_at(self.index)
    }

    /// The tree that holds this node.
    pub fn tree(&self) -> (t: &'a Tree<T>)
        ensures
            *t == self.arena(),
    {
        self.tree
    }

    /// The id of this node.
    pub fn id(&self) -> (id: NodeId)
        ensures
            id.owner() == self.arena().owner(),
            id.index() == self.index(),
    {
        self.tree.node_id(self.index)
    }

    /// The parent of this node.
    pub fn parent(&self) -> (r: Option<Self>)
        requires
            self.wf(),
        ensures
            self.leads_to(r, self.arena()@.parents[self.index()]),
    {
        self.step(self.tree.parent_index(self.index))
    }

    /// The sibling just before this node.
    pub fn prev_sibling(&self) -> (r: Option<Self>)
        requires
            self.wf(),
        ensures
            self.leads_to(r, self.arena()@.prev_sibling(self.index())),
    {
        self.step(self.tree.prev_sibling_index(self.index))
    }

    /// The sibling just after this node.
    pub fn next_sibling(&self) -> (r: Option<Self>)
        requires
            self.wf(),
        ensures
            self.leads_to(r, self.arena()@.next_sibling(self.index())),
    {
        self.step(self.tree.next_sibling_index(self.index))
    }

    /// The first child of this node.
    pub fn first_child(&self) -> (r: Option<Self>)
        requires
            self.wf(),
        ensures
            self.leads_to(r, self.arena()@.first_child(self.index())),
    {
        self.step(self.tree.first_child_index(self.index))
    }

    /// The last child of this node.
    pub fn last_child(&self) -> (r: Option<Self>)
        requires
            self.wf(),
        ensures
            self.leads_to(r, self.arena()@.last_child(self.index())),
    {
        self.step(self.tree.last_child_index(self.index))
    }

    /// Whether this node has a sibling on either side.
    pub fn has_siblings(&self) -> (r: bool)
        requires
            self.wf(),
        ensures
            r == (self.arena()@.prev_sibling(self.index()) is Some || self.arena()@.next_sibling(
                self.index(),
            ) is Some),
    {
        self.tree.prev_sibling_index(self.index).is_some() || self.tree.next_sibling_index(
            self.index,
        ).is_some()
    }

    /// Whether this node has a child.
    pub fn has_children(&self) -> (r: bool)
        requires
            self.wf(),
        ensures
            r == (self.arena()@.children[self.index()].len() > 0),
    {
        self.tree.first_child_index(self.index).is_some()
    }
}

impl<'a, T> PartialEq for NodeRef<'a, T> {
    /// Two cursors are equal when they stand on the same slot of trees with the
    /// same tag.
    fn eq(&self, other: &Self) -> (r: bool) {
        self.index == other.index && self.tree.tag() == other.tree.tag()
    }
}

impl<'a, T> vstd::std_specs::cmp::PartialEqSpecImpl for NodeRef<'a, T> {
    open spec fn obeys_eq_spec() -> bool {
        true
    }

    open spec fn eq_spec(&self, other: &Self) -> bool {
        self.index() == other.index() && self.arena().owner() == other.arena().owner()
    }
}

impl<'a, T> Eq for NodeRef<'a, T> {

}

} // verus!
