//! Cursors that edit the tree.

use vstd::prelude::*;
use crate::model::as_index;
use crate::node_ref::NodeRef;
use crate::tree::{NodeId, Tree};

verus! {

/// A cursor on one node that holds the whole tree for writing: an edit at one
/// node rewrites links of its parent and siblings elsewhere in the arena.
///
/// The fields are open so that a caller's proof sees where the loan of the tree
/// ends. All functions ask for `wf`: the slot must be one of the tree.
#[derive(Debug)]
pub struct NodeMut<'a, T> {
    pub index: usize,
    pub tree: &'a mut Tree<T>,
}

impl<'a, T> NodeMut<'a, T> {
    /// The tree as the cursor sees it now.
    pub open spec fn arena(&self) -> Tree<T> {
        *self.tree
    }

    /// The slot that the cursor stands on.
    pub open spec fn index(&self) -> int {
        self.index as int
    }

    /// The loan of the tree that the cursor holds. What the tree is when the
    /// loan ends is `*final(c.loan())`.
    pub open spec fn loan(self) -> &'a mut Tree<T> {
        self.tree
    }

    /// The cursor stands on a node of a well-formed tree.
    pub open spec fn wf(&self) -> bool {
        self.arena().wf() && self.arena()@.has(self.index())
    }

    /// A cursor on slot `index` of `tree`.
    pub(crate) fn at(tree: &'a mut Tree<T>, index: usize) -> (r: Self)
        ensures
            r.arena() == *old(tree),
            r.index() == index,
            *final(r.loan()) == *final(tree),
    {
        NodeMut { index, tree }
    }

    /// The id of this node.
    pub fn id(&self) -> (id: NodeId)
        ensures
            id.owner() == self.arena().owner(),
            id.index() == self.index(),
    {
        self.tree.node_id(self.index)
    }
}

impl<'a, T> NodeMut<'a, T> {
    /// The cursor on slot `target`, if there is a target.
    fn step(&mut self, target: Option<usize>) -> (r: Option<NodeMut<'_, T>>)
        requires
            old(self).arena().wf(),
            target matches Some(i) ==> old(self).arena()@.has(i as int),
        ensures
            match r {
                Some(n) => {
                    &&& n.wf()
                    &&& n.arena() == old(self).arena()
                    &&& Some(n.index()) == as_index(target)
                    &&& final(self).arena() == *final(n.loan())
                },
                None => {
                    &&& target is None
                    &&& final(self).arena() == old(self).arena()
                },
            },
            final(self).index() == old(self).index(),
            *final(final(self).loan()) == *final(old(self).loan()),
    {
        match target {
            Some(i) => Some(NodeMut { index: i, tree: &mut *self.tree }),
            None => None,
        }
    }

    /// The value of this node, to be changed in place.
    pub fn value(&mut self) -> (v: &mut T)
        requires
            old(self).wf(),
        ensures
            *v == old(self).arena()@.values[old(self).index()],
            final(self).wf(),
            final(self).index() == old(self).index(),
            final(self).arena().owner() == old(self).arena().owner(),
            final(self).arena()@ == old(self).arena()@.set_value(old(self).index(), *final(v)),
            final(self).arena()@.is_forest() == old(self).arena()@.is_forest(),
            *final(final(self).loan()) == *final(old(self).loan()),
    {
        proof {
            let view = self.tree@;
            assert forall|x: T| #[trigger]
                view.set_value(self.index as int, x).is_forest() == view.is_forest() by {
                view.lemma_forest_by_parents(view.set_value(self.index as int, x));
            }
        }
        self.tree.value_at_mut(self.index)
    }

    /// The tree that holds this node, to be changed through its own functions.
    /// The cursor stays on the same slot.
    pub fn tree(&mut self) -> (t: &mut Tree<T>)
        ensures
            *t == old(self).arena(),
            final(self).arena() == *final(t),
            final(self).index() == old(self).index(),
            *final(final(self).loan()) == *final(old(self).loan()),
    {
        &mut *self.tree
    }

    /// The parent of this node, as a cursor that holds the tree until it is
    /// dropped.
    pub fn parent(&mut self) -> (r: Option<NodeMut<'_, T>>)
        requires
            old(self).wf(),
        ensures
            match r {
                Some(n) => {
                    &&& n.wf()
                    &&& n.arena() == old(self).arena()
                    &&& Some(n.index()) == old(self).arena()@.parents[old(self).index()]
                    &&& final(self).arena() == *final(n.loan())
                },
                None => {
                    &&& old(self).arena()@.parents[old(self).index()] is None
                    &&& final(self).arena() == old(self).arena()
                },
            },
            final(self).index() == old(self).index(),
            *final(final(self).loan()) == *final(old(self).loan()),
    {
        let target = self.tree.parent_index(self.index);
        self.step(target)
    }

    /// The sibling just before this node, as a cursor that holds the tree until
    /// it is dropped.
    pub fn prev_sibling(&mut self) -> (r: Option<NodeMut<'_, T>>)
        requires
            old(self).wf(),
        ensures
            match r {
                Some(n) => {
                    &&& n.wf()
                    &&& n.arena() == old(self).arena()
                    &&& Some(n.index()) == old(self).arena()@.prev_sibling(old(self).index())
                    &&& final(self).arena() == *final(n.loan())
                },
                None => {
                    &&& old(self).arena()@.prev_sibling(old(self).index()) is None
                    &&& final(self).arena() == old(self).arena()
                },
            },
            final(self).index() == old(self).index(),
            *final(final(self).loan()) == *final(old(self).loan()),
    {
        let target = self.tree.prev_sibling_index(self.index);
        self.step(target)
    }

    /// The sibling just after this node, as a cursor that holds the tree until
    /// it is dropped.
    pub fn next_sibling(&mut self) -> (r: Option<NodeMut<'_, T>>)
        requires
            old(self).wf(),
        ensures
            match r {
                Some(n) => {
                    &&& n.wf()
                    &&& n.arena() == old(self).arena()
                    &&& Some(n.index()) == old(self).arena()@.next_sibling(old(self).index())
                    &&& final(self).arena() == *final(n.loan())
                },
                None => {
                    &&& old(self).arena()@.next_sibling(old(self).index()) is None
                    &&& final(self).arena() == old(self).arena()
                },
            },
            final(self).index() == old(self).index(),
            *final(final(self).loan()) == *final(old(self).loan()),
    {
        let target = self.tree.next_sibling_index(self.index);
        self.step(target)
    }

    /// The first child of this node, as a cursor that holds the tree until it
    /// is dropped.
    pub fn first_child(&mut self) -> (r: Option<NodeMut<'_, T>>)
        requires
            old(self).wf(),
        ensures
            match r {
                Some(n) => {
                    &&& n.wf()
                    &&& n.arena() == old(self).arena()
                    &&& Some(n.index()) == old(self).arena()@.first_child(old(self).index())
                    &&& final(self).arena() == *final(n.loan())
                },
                None => {
                    &&& old(self).arena()@.first_child(old(self).index()) is None
                    &&& final(self).arena() == old(self).arena()
                },
            },
            final(self).index() == old(self).index(),
            *final(final(self).loan()) == *final(old(self).loan()),
    {
        let target = self.tree.first_child_index(self.index);
        self.step(target)
    }

    /// The last child of this node, as a cursor that holds the tree until it is
    /// dropped.
    pub fn last_child(&mut self) -> (r: Option<NodeMut<'_, T>>)
        requires
            old(self).wf(),
        ensures
            match r {
                Some(n) => {
                    &&& n.wf()
                    &&& n.arena() == old(self).arena()
                    &&& Some(n.index()) == old(self).arena()@.last_child(old(self).index())
                    &&& final(self).arena() == *final(n.loan())
                },
                None => {
                    &&& old(self).arena()@.last_child(old(self).index()) is None
                    &&& final(self).arena() == old(self).arena()
                },
            },
            final(self).index() == old(self).index(),
            *final(final(self).loan()) == *final(old(self).loan()),
    {
        let target = self.tree.last_child_index(self.index);
        self.step(target)
    }

    /// Whether this node has a sibling on either side.
    pub fn has_siblings(&self) -> (r: bool)
        requires
            self.wf(),
        ensures
            r == (self.arena()@.prev_sibling(self.index()) is Some || self.arena()@.next_sibling(
                self.index(),
            ) is Some),
    {
        self.tree.prev_sibling_index(self.index).is_some() || self.tree.next_sibling_index(
            self.index,
        ).is_some()
    }

    /// Whether this node has a child.
    pub fn has_children(&self) -> (r: bool)
        requires
            self.wf(),
        ensures
            r == (self.arena()@.children[self.index()].len() > 0),
    {
        self.tree.first_child_index(self.index).is_some()
    }

    /// Creates a node and makes it the last child of this node. The cursor that
    /// comes back stands on the new node.
    pub fn append(&mut self, value: T) -> (r: NodeMut<'_, T>)
        requires
            old(self).wf(),
        ensures
            r.wf(),
            r.index() == old(self).arena()@.len(),
            r.arena().owner() == old(self).arena().owner(),
            r.arena()@ == old(self).arena()@.push_orphan(value).attach(
                old(self).index(),
                old(self).arena()@.children[old(self).index()].len() as int,
                r.index(),
            ),
            old(self).arena()@.is_forest() ==> r.arena()@.is_forest(),
            final(self).arena() == *final(r.loan()),
            final(self).index() == old(self).index(),
            *final(final(self).loan()) == *final(old(self).loan()),
    {
        proof {
            self.tree.lemma_view_valid();
            old(self).arena()@.lemma_push_orphan_keeps(value, old(self).index());
            if self.tree@.is_forest() {
                self.tree@.lemma_grow_forest(
                    value,
                    self.index as int,
                    self.tree@.children[self.index as int].len() as int,
                );
            }
        }
        let c: usize = self.tree.push_orphan(value);
        self.tree.link_last_child(self.index, c);
        NodeMut { index: c, tree: &mut *self.tree }
    }

    /// Creates a node and makes it the first child of this node. The cursor
    /// that comes back stands on the new node.
    pub fn prepend(&mut self, value: T) -> (r: NodeMut<'_, T>)
        requires
            old(self).wf(),
        ensures
            r.wf(),
            r.index() == old(self).arena()@.len(),
            r.arena().owner() == old(self).arena().owner(),
            r.arena()@ == old(self).arena()@.push_orphan(value).attach(
                old(self).index(),
                0,
                r.index(),
            ),
            old(self).arena()@.is_forest() ==> r.arena()@.is_forest(),
            final(self).arena() == *final(r.loan()),
            final(self).index() == old(self).index(),
            *final(final(self).loan()) == *final(old(self).loan()),
    {
        proof {
            self.tree.lemma_view_valid();
            old(self).arena()@.lemma_push_orphan_keeps(value, old(self).index());
            if self.tree@.is_forest() {
                self.tree@.lemma_grow_forest(value, self.index as int, 0);
            }
        }
        let c: usize = self.tree.push_orphan(value);
        self.tree.link_first_child(self.index, c);
        NodeMut { index: c, tree: &mut *self.tree }
    }

    /// Creates a node and makes it the sibling just before this node, which
    /// must have a parent. The cursor that comes back stands on the new node.
    pub fn insert_before(&mut self, value: T) -> (r: NodeMut<'_, T>)
        requires
            old(self).wf(),
            !old(self).arena()@.is_orphan(old(self).index()),
        ensures
            r.wf(),
            r.index() == old(self).arena()@.len(),
            r.arena().owner() == old(self).arena().owner(),
            r.arena()@ == old(self).arena()@.push_orphan(value).attach(
                old(self).arena()@.parents[old(self).index()].unwrap(),
                old(self).arena()@.position(old(self).index()),
                r.index(),
            ),
            old(self).arena()@.is_forest() ==> r.arena()@.is_forest(),
            final(self).arena() == *final(r.loan()),
            final(self).index() == old(self).index(),
            *final(final(self).loan()) == *final(old(self).loan()),
    {
        proof {
            self.tree.lemma_view_valid();
            old(self).arena()@.lemma_push_orphan_keeps(value, old(self).index());
            if self.tree@.is_forest() {
                self.tree@.lemma_grow_forest(
                    value,
                    self.tree@.parents[self.index as int].unwrap(),
                    self.tree@.position(self.index as int),
                );
            }
        }
        let c: usize = self.tree.push_orphan(value);
        self.tree.link_before(self.index, c);
        NodeMut { index: c, tree: &mut *self.tree }
    }

    /// Creates a node and makes it the sibling just after this node, which must
    /// have a parent. The cursor that comes back stands on the new node.
    pub fn insert_after(&mut self, value: T) -> (r: NodeMut<'_, T>)
        requires
            old(self).wf(),
            !old(self).arena()@.is_orphan(old(self).index()),
        ensures
            r.wf(),
            r.index() == old(self).arena()@.len(),
            r.arena().owner() == old(self).arena().owner(),
            r.arena()@ == old(self).arena()@.push_orphan(value).attach(
                old(self).arena()@.parents[old(self).index()].unwrap(),
                old(self).arena()@.position(old(self).index()) + 1,
                r.index(),
            ),
            old(self).arena()@.is_forest() ==> r.arena()@.is_forest(),
            final(self).arena() == *final(r.loan()),
            final(self).index() == old(self).index(),
            *final(final(self).loan()) == *final(old(self).loan()),
    {
        proof {
            self.tree.lemma_view_valid();
            old(self).arena()@.lemma_push_orphan_keeps(value, old(self).index());
            if self.tree@.is_forest() {
                self.tree@.lemma_grow_forest(
                    value,
                    self.tree@.parents[self.index as int].unwrap(),
                    self.tree@.position(self.index as int) + 1,
                );
            }
        }
        let c: usize = self.tree.push_orphan(value);
        self.tree.link_after(self.index, c);
        NodeMut { index: c, tree: &mut *self.tree }
    }

    /// Makes the orphan that `id` names the last child of this node. The node
    /// keeps its own children. The cursor that comes back stands on it.
    pub fn append_id(&mut self, id: NodeId) -> (r: NodeMut<'_, T>)
        requires
            old(self).wf(),
            old(self).arena().contains_id(id),
            old(self).arena()@.is_orphan(id.index()),
            id.index() != old(self).index(),
        ensures
            r.wf(),
            r.index() == id.index(),
            r.arena().owner() == old(self).arena().owner(),
            r.arena()@ == old(self).arena()@.attach(
                old(self).index(),
                old(self).arena()@.children[old(self).index()].len() as int,
                id.index(),
            ),
            old(self).arena()@.is_forest() && id.index() != 0 && !old(self).arena()@.reaches(
                old(self).index(),
                id.index(),
            ) ==> r.arena()@.is_forest(),
            final(self).arena() == *final(r.loan()),
            final(self).index() == old(self).index(),
            *final(final(self).loan()) == *final(old(self).loan()),
    {
        let c: usize = id.slot();
        proof {
            let view = self.tree@;
            self.tree.lemma_view_valid();
            let p = self.index as int;
            if view.is_forest() && c != 0 && !view.reaches(p, c as int) {
                view.lemma_attach_forest(
                    p,
                    view.children[self.index as int].len() as int,
                    c as int,
                );
            }
        }
        self.tree.link_last_child(self.index, c);
        NodeMut { index: c, tree: &mut *self.tree }
    }

    /// Makes the orphan that `id` names the first child of this node. The node
    /// keeps its own children. The cursor that comes back stands on it.
    pub fn prepend_id(&mut self, id: NodeId) -> (r: NodeMut<'_, T>)
        requires
            old(self).wf(),
            old(self).arena().contains_id(id),
            old(self).arena()@.is_orphan(id.index()),
            id.index() != old(self).index(),
        ensures
            r.wf(),
            r.index() == id.index(),
            r.arena().owner() == old(self).arena().owner(),
            r.arena()@ == old(self).arena()@.attach(
                old(self).index(),
                0,
                id.index(),
            ),
            old(self).arena()@.is_forest() && id.index() != 0 && !old(self).arena()@.reaches(
                old(self).index(),
                id.index(),
            ) ==> r.arena()@.is_forest(),
            final(self).arena() == *final(r.loan()),
            final(self).index() == old(self).index(),
            *final(final(self).loan()) == *final(old(self).loan()),
    {
        let c: usize = id.slot();
        proof {
            let view = self.tree@;
            self.tree.lemma_view_valid();
            let p = self.index as int;
            if view.is_forest() && c != 0 && !view.reaches(p, c as int) {
                view.lemma_attach_forest(p, 0, c as int);
            }
        }
        self.tree.link_first_child(self.index, c);
        NodeMut { index: c, tree: &mut *self.tree }
    }

    /// Makes the orphan that `id` names the sibling just before this node,
    /// which must have a parent. The node keeps its own children. The cursor
    /// that comes back stands on it.
    pub fn insert_id_before(&mut self, id: NodeId) -> (r: NodeMut<'_, T>)
        requires
            old(self).wf(),
            old(self).arena().contains_id(id),
            old(self).arena()@.is_orphan(id.index()),
            !old(self).arena()@.is_orphan(old(self).index()),
        ensures
            r.wf(),
            r.index() == id.index(),
            r.arena().owner() == old(self).arena().owner(),
            r.arena()@ == old(self).arena()@.attach(
                old(self).arena()@.parents[old(self).index()].unwrap(),
                old(self).arena()@.position(old(self).index()),
                id.index(),
            ),
            old(self).arena()@.is_forest() && id.index() != 0 && !old(self).arena()@.reaches(
                old(self).arena()@.parents[old(self).index()].unwrap(),
                id.index(),
            ) ==> r.arena()@.is_forest(),
            final(self).arena() == *final(r.loan()),
            final(self).index() == old(self).index(),
            *final(final(self).loan()) == *final(old(self).loan()),
    {
        let c: usize = id.slot();
        proof {
            let view = self.tree@;
            self.tree.lemma_view_valid();
            let p = view.parents[self.index as int].unwrap();
            if view.is_forest() && c != 0 && !view.reaches(p, c as int) {
                view.lemma_attach_forest(p, view.position(self.index as int), c as int);
            }
        }
        self.tree.link_before(self.index, c);
        NodeMut { index: c, tree: &mut *self.tree }
    }

    /// Makes the orphan that `id` names the sibling just after this node, which
    /// must have a parent. The node keeps its own children. The cursor that
    /// comes back stands on it.
    pub fn insert_id_after(&mut self, id: NodeId) -> (r: NodeMut<'_, T>)
        requires
            old(self).wf(),
            old(self).arena().contains_id(id),
            old(self).arena()@.is_orphan(id.index()),
            !old(self).arena()@.is_orphan(old(self).index()),
        ensures
            r.wf(),
            r.index() == id.index(),
            r.arena().owner() == old(self).arena().owner(),
            r.arena()@ == old(self).arena()@.attach(
                old(self).arena()@.parents[old(self).index()].unwrap(),
                old(self).arena()@.position(old(self).index()) + 1,
                id.index(),
            ),
            old(self).arena()@.is_forest() && id.index() != 0 && !old(self).arena()@.reaches(
                old(self).arena()@.parents[old(self).index()].unwrap(),
                id.index(),
            ) ==> r.arena()@.is_forest(),
            final(self).arena() == *final(r.loan()),
            final(self).index() == old(self).index(),
            *final(final(self).loan()) == *final(old(self).loan()),
    {
        let c: usize = id.slot();
        proof {
            let view = self.tree@;
            self.tree.lemma_view_valid();
            let p = view.parents[self.index as int].unwrap();
            if view.is_forest() && c != 0 && !view.reaches(p, c as int) {
                view.lemma_attach_forest(p, view.position(self.index as int) + 1, c as int);
            }
        }
        self.tree.link_after(self.index, c);
        NodeMut { index: c, tree: &mut *self.tree }
    }

    /// Moves all children of the node that `id` names, in their order, behind
    /// the children of this node, and makes this node the parent of each. The
    /// node that `id` names is left without children.
    pub fn reparent_from_id_append(&mut self, id: NodeId)
        requires
            old(self).wf(),
            old(self).arena().contains_id(id),
        ensures
            final(self).wf(),
            final(self).index() == old(self).index(),
            final(self).arena().owner() == old(self).arena().owner(),
            final(self).arena()@ == old(self).arena()@.adopt_last(old(self).index(), id.index()),
            old(self).arena()@.is_forest() && (old(self).index() == id.index() || !old(
                self,
            ).arena()@.reaches(old(self).index(), id.index())) ==> final(self).arena()@.is_forest(),
            *final(final(self).loan()) == *final(old(self).loan()),
    {
        let src: usize = id.slot();
        proof {
            let view = self.tree@;
            self.tree.lemma_view_valid();
            if view.is_forest() && (self.index == src || !view.reaches(
                self.index as int,
                src as int,
            )) {
                view.lemma_adopt_forest(self.index as int, src as int);
            }
        }
        self.tree.move_children_last(self.index, src);
    }

    /// Moves all children of the node that `id` names, in their order, before
    /// the children of this node, and makes this node the parent of each. The
    /// node that `id` names is left without children.
    pub fn reparent_from_id_prepend(&mut self, id: NodeId)
        requires
            old(self).wf(),
            old(self).arena().contains_id(id),
        ensures
            final(self).wf(),
            final(self).index() == old(self).index(),
            final(self).arena().owner() == old(self).arena().owner(),
            final(self).arena()@ == old(self).arena()@.adopt_first(old(self).index(), id.index()),
            old(self).arena()@.is_forest() && (old(self).index() == id.index() || !old(
                self,
            ).arena()@.reaches(old(self).index(), id.index())) ==> final(self).arena()@.is_forest(),
            *final(final(self).loan()) == *final(old(self).loan()),
    {
        let src: usize = id.slot();
        proof {
            let view = self.tree@;
            self.tree.lemma_view_valid();
            if view.is_forest() && (self.index == src || !view.reaches(
                self.index as int,
                src as int,
            )) {
                view.lemma_adopt_forest(self.index as int, src as int);
            }
        }
        self.tree.move_children_first(self.index, src);
    }

    /// Takes this node out of its parent's child list. An orphan stays as it
    /// is. The node keeps its value, its id and its own children.
    pub fn detach(&mut self)
        requires
            old(self).wf(),
        ensures
            final(self).wf(),
            final(self).index() == old(self).index(),
            final(self).arena().owner() == old(self).arena().owner(),
            final(self).arena()@ == old(self).arena()@.detach(old(self).index()),
            old(self).arena()@.is_forest() ==> final(self).arena()@.is_forest(),
            *final(final(self).loan()) == *final(old(self).loan()),
    {
        proof {
            if self.tree@.is_forest() {
                self.tree.lemma_view_valid();
                self.tree@.lemma_detach_forest(self.index as int);
            }
        }
        self.tree.unlink(self.index);
    }

    /// The read-only cursor on the same slot of the same tree.
    pub closed spec fn as_node_ref(self) -> NodeRef<'a, T> {
        NodeRef::spec_at(&*self.tree, self.index as int)
    }

    /// The read-only cursor that a cursor turns into looks at the same tree and
    /// stands on the same slot.
    pub proof fn lemma_as_node_ref(self)
        ensures
            self.as_node_ref().arena() == self.arena(),
            self.as_node_ref().index() == self.index(),
    {
        NodeRef::lemma_spec_at(&*self.tree, self.index as int);
    }

    /// Gives up the right to write and keeps the place.
    pub(crate) fn into_ref(self) -> (r: NodeRef<'a, T>)
        ensures
            r == self.as_node_ref(),
            r.arena() == self.arena(),
            r.index() == self.index(),
            *final(self.loan()) == self.arena(),
    {
        NodeRef::at(self.tree, self.index)
    }
}

impl<'a, T> NodeMut<'a, T> {
    /// The cursor stayed on its slot of a well-formed tree with the same tag
    /// and the same links.
    pub open spec fn kept_shape(before: Self, after: Self) -> bool {
        &&& after.wf()
        &&& after.index() == before.index()
        &&& after.arena().owner() == before.arena().owner()
        &&& after.arena()@.same_shape(before.arena()@)
    }

    /// The sibling that follows `order[j]` in one direction is `order[j + 1]`,
    /// and there is none after the last.
    spec fn linked_at(
        view: crate::model::TreeView<T>,
        forward: bool,
        order: Seq<int>,
        j: int,
    ) -> bool {
        &&& view.has(order[j])
        &&& (if forward {
            view.next_sibling(order[j])
        } else {
            view.prev_sibling(order[j])
        }) == if j + 1 < order.len() {
            Some(order[j + 1])
        } else {
            None
        }
    }

    /// `order` lists `start` and the siblings that follow it in one direction.
    spec fn along(
        view: crate::model::TreeView<T>,
        start: Option<usize>,
        forward: bool,
        order: Seq<int>,
    ) -> bool {
        &&& as_index(start) == if order.len() > 0 {
            Some(order[0])
        } else {
            None
        }
        &&& forall|j: int|
            0 <= j < order.len() ==> #[trigger] Self::linked_at(view, forward, order, j)
    }

    /// Runs the callback on `start` and on the siblings that follow it in one
    /// direction.
    fn for_each_along<F: Fn(&mut NodeMut<'_, T>)>(
        &mut self,
        start: Option<usize>,
        forward: bool,
        f: &F,
        Ghost(order): Ghost<Seq<int>>,
    )
        requires
            old(self).wf(),
            Self::along(old(self).arena()@, start, forward, order),
            forall|n: &mut NodeMut<'_, T>| n.wf() ==> #[trigger] f.requires((n,)),
            forall|n: &mut NodeMut<'_, T>| #[trigger]
                f.ensures((n,), ()) ==> Self::kept_shape(*n, *final(n))
                    && *final(final(n).loan()) == *final(n.loan()),
        ensures
            Self::kept_shape(*old(self), *final(self)),
            *final(final(self).loan()) == *final(old(self).loan()),
            exists|steps: Seq<Tree<T>>|
                {
                    &&& steps.len() == order.len() + 1
                    &&& steps[0] == old(self).arena()
                    &&& steps[order.len() as int] == final(self).arena()
                    &&& forall|j: int|
                        #![trigger order[j]]
                        0 <= j < order.len() ==> exists|n: &mut NodeMut<'_, T>| #[trigger]
                            f.ensures((n,), ()) && n.index() == order[j] && n.arena() == steps[j]
                                && final(n).arena() == steps[j + 1]
                },
    {
        let ghost view = self.tree@;
        let ghost mut steps: Seq<Tree<T>> = seq![*self.tree];
        let ghost mut k: int = 0;
        let mut next = start;
        while next.is_some()
            invariant
                self.tree.wf(),
                self.index == old(self).index,
                self.tree.owner() == old(self).tree.owner(),
                self.tree@.same_shape(view),
                view == old(self).tree@,
                view.has(self.index as int),
                Self::along(view, start, forward, order),
                0 <= k <= order.len(),
                *final(self.tree) == *final(old(self).tree),
                as_index(next) == if k < order.len() {
                    Some(order[k])
                } else {
                    None
                },
                steps.len() == k + 1,
                steps[0] == old(self).arena(),
                steps[k] == *self.tree,
                forall|j: int|
                    #![trigger order[j]]
                    0 <= j < k ==> exists|n: &mut NodeMut<'_, T>| #[trigger]
                        f.ensures((n,), ()) && n.index() == order[j] && n.arena() == steps[j]
                            && final(n).arena() == steps[j + 1],
                forall|n: &mut NodeMut<'_, T>| n.wf() ==> #[trigger] f.requires((n,)),
                forall|n: &mut NodeMut<'_, T>| #[trigger]
                    f.ensures((n,), ()) ==> Self::kept_shape(*n, *final(n))
                        && *final(final(n).loan()) == *final(n.loan()),
            decreases order.len() - k,
        {
            let i: usize = next.unwrap();
            proof {
                assert(Self::linked_at(view, forward, order, k));
            }
            next = if forward {
                self.tree.next_sibling_index(i)
            } else {
                self.tree.prev_sibling_index(i)
            };
            let ghost before = *self.tree;
            let mut node = NodeMut { index: i, tree: &mut *self.tree };
            f(&mut node);
            proof {
                let earlier = steps;
                steps = steps.push(*self.tree);
                assert forall|j: int| #![trigger order[j]] 0 <= j < k + 1 implies exists|
                    n: &mut NodeMut<'_, T>,
                | #[trigger]
                    f.ensures((n,), ()) && n.index() == order[j] && n.arena() == steps[j]
                        && final(n).arena() == steps[j + 1] by {
                    if j < k {
                        assert(earlier[j] == steps[j]);
                        assert(earlier[j + 1] == steps[j + 1]);
                    }
                }
                k = k + 1;
            }
        }
    }

    /// Runs the callback on every child of this node, first to last. The
    /// callback must leave the links as they are; it may change values. The
    /// next node is looked up before the callback runs.
    pub fn for_each_child<F: Fn(&mut NodeMut<'_, T>)>(&mut self, f: F)
        requires
            old(self).wf(),
            forall|n: &mut NodeMut<'_, T>| n.wf() ==> #[trigger] f.requires((n,)),
            forall|n: &mut NodeMut<'_, T>| #[trigger]
                f.ensures((n,), ()) ==> Self::kept_shape(*n, *final(n))
                    && *final(final(n).loan()) == *final(n.loan()),
        ensures
            Self::kept_shape(*old(self), *final(self)),
            *final(final(self).loan()) == *final(old(self).loan()),
            ({
                let order = old(self).arena()@.children[old(self).index()];
                exists|steps: Seq<Tree<T>>|
                    {
                        &&& steps.len() == order.len() + 1
                        &&& steps[0] == old(self).arena()
                        &&& steps[order.len() as int] == final(self).arena()
                        &&& forall|j: int|
                            #![trigger order[j]]
                            0 <= j < order.len() ==> exists|n: &mut NodeMut<'_, T>| #[trigger]
                                f.ensures((n,), ()) && n.index() == order[j] && n.arena()
                                    == steps[j] && final(n).arena() == steps[j + 1]
                    }
            }),
    {
        let ghost view = self.tree@;
        let ghost order = view.children[self.index as int];
        let start = self.tree.first_child_index(self.index);
        proof {
            self.tree.lemma_view_valid();
            let kids = view.children[self.index as int];
            assert forall|j: int| 0 <= j < order.len() implies #[trigger] Self::linked_at(
                view,
                true,
                order,
                j,
            ) by {
                view.lemma_position(self.index as int, j);
            }
        }
        self.for_each_along(start, true, &f, Ghost(order));
    }

    /// Runs the callback on every sibling after this node, nearest first. The
    /// callback must leave the links as they are; it may change values. The
    /// next node is looked up before the callback runs.
    pub fn for_each_next_sibling<F: Fn(&mut NodeMut<'_, T>)>(&mut self, f: F)
        requires
            old(self).wf(),
            forall|n: &mut NodeMut<'_, T>| n.wf() ==> #[trigger] f.requires((n,)),
            forall|n: &mut NodeMut<'_, T>| #[trigger]
                f.ensures((n,), ()) ==> Self::kept_shape(*n, *final(n))
                    && *final(final(n).loan()) == *final(n.loan()),
        ensures
            Self::kept_shape(*old(self), *final(self)),
            *final(final(self).loan()) == *final(old(self).loan()),
            ({
                let order = old(self).arena()@.next_siblings(old(self).index());
                exists|steps: Seq<Tree<T>>|
                    {
                        &&& steps.len() == order.len() + 1
                        &&& steps[0] == old(self).arena()
                        &&& steps[order.len() as int] == final(self).arena()
                        &&& forall|j: int|
                            #![trigger order[j]]
                            0 <= j < order.len() ==> exists|n: &mut NodeMut<'_, T>| #[trigger]
                                f.ensures((n,), ()) && n.index() == order[j] && n.arena()
                                    == steps[j] && final(n).arena() == steps[j + 1]
                    }
            }),
    {
        let ghost view = self.tree@;
        let ghost order = view.next_siblings(self.index as int);
        let start = self.tree.next_sibling_index(self.index);
        proof {
            self.tree.lemma_view_valid();
            if view.parents[self.index as int] is Some {
                let p = view.parents[self.index as int].unwrap();
                let at = view.position(self.index as int);
                view.lemma_child_slot(self.index as int);
                assert forall|j: int| 0 <= j < order.len() implies #[trigger] Self::linked_at(
                    view,
                    true,
                    order,
                    j,
                ) by {
                    view.lemma_position(p, at + 1 + j);
                    assert(order[j] == view.children[p][at + 1 + j]);
                }
            }
        }
        self.for_each_along(start, true, &f, Ghost(order));
    }

    /// Runs the callback on every sibling before this node, nearest first. The
    /// callback must leave the links as they are; it may change values. The
    /// next node is looked up before the callback runs.
    pub fn for_each_prev_sibling<F: Fn(&mut NodeMut<'_, T>)>(&mut self, f: F)
        requires
            old(self).wf(),
            forall|n: &mut NodeMut<'_, T>| n.wf() ==> #[trigger] f.requires((n,)),
            forall|n: &mut NodeMut<'_, T>| #[trigger]
                f.ensures((n,), ()) ==> Self::kept_shape(*n, *final(n))
                    && *final(final(n).loan()) == *final(n.loan()),
        ensures
            Self::kept_shape(*old(self), *final(self)),
            *final(final(self).loan()) == *final(old(self).loan()),
            ({
                let order = old(self).arena()@.prev_siblings(old(self).index());
                exists|steps: Seq<Tree<T>>|
                    {
                        &&& steps.len() == order.len() + 1
                        &&& steps[0] == old(self).arena()
                        &&& steps[order.len() as int] == final(self).arena()
                        &&& forall|j: int|
                            #![trigger order[j]]
                            0 <= j < order.len() ==> exists|n: &mut NodeMut<'_, T>| #[trigger]
                                f.ensures((n,), ()) && n.index() == order[j] && n.arena()
                                    == steps[j] && final(n).arena() == steps[j + 1]
                    }
            }),
    {
        let ghost view = self.tree@;
        let ghost order = view.prev_siblings(self.index as int);
        let start = self.tree.prev_sibling_index(self.index);
        proof {
            self.tree.lemma_view_valid();
            if view.parents[self.index as int] is Some {
                let p = view.parents[self.index as int].unwrap();
                let at = view.position(self.index as int);
                view.lemma_child_slot(self.index as int);
                assert forall|j: int| 0 <= j < order.len() implies #[trigger] Self::linked_at(
                    view,
                    false,
                    order,
                    j,
                ) by {
                    view.lemma_position(p, at - 1 - j);
                    assert(order[j] == view.children[p][at - 1 - j]);
                }
            }
        }
        self.for_each_along(start, false, &f, Ghost(order));
    }
}

impl<'a, T> NodeMut<'a, T> {
    /// Runs the callback on the siblings before this node, nearest first, on
    /// this node, and on the siblings after it, nearest first. The callback
    /// must leave the links as they are; it may change values. The next node is
    /// looked up before the callback runs.
    pub fn for_each_sibling<F: Fn(&mut NodeMut<'_, T>)>(&mut self, f: F)
        requires
            old(self).wf(),
            forall|n: &mut NodeMut<'_, T>| n.wf() ==> #[trigger] f.requires((n,)),
            forall|n: &mut NodeMut<'_, T>| #[trigger]
                f.ensures((n,), ()) ==> Self::kept_shape(*n, *final(n))
                    && *final(final(n).loan()) == *final(n.loan()),
        ensures
            Self::kept_shape(*old(self), *final(self)),
            *final(final(self).loan()) == *final(old(self).loan()),
            ({
                let order = old(self).arena()@.siblings_around(old(self).index());
                exists|steps: Seq<Tree<T>>|
                    {
                        &&& steps.len() == order.len() + 1
                        &&& steps[0] == old(self).arena()
                        &&& steps[order.len() as int] == final(self).arena()
                        &&& forall|j: int|
                            #![trigger order[j]]
                            0 <= j < order.len() ==> exists|n: &mut NodeMut<'_, T>| #[trigger]
                                f.ensures((n,), ()) && n.index() == order[j] && n.arena()
                                    == steps[j] && final(n).arena() == steps[j + 1]
                    }
            }),
    {
        let ghost view = self.tree@;
        let ghost me = self.index as int;
        let ghost before = view.prev_siblings(me);
        let ghost after = view.next_siblings(me);
        let ghost order = view.siblings_around(me);
        let start = self.tree.prev_sibling_index(self.index);
        proof {
            self.tree.lemma_view_valid();
            if view.parents[me] is Some {
                let p = view.parents[me].unwrap();
                let at = view.position(me);
                view.lemma_child_slot(me);
                assert forall|j: int| 0 <= j < before.len() implies #[trigger] Self::linked_at(
                    view,
                    false,
                    before,
                    j,
                ) by {
                    view.lemma_position(p, at - 1 - j);
                    assert(before[j] == view.children[p][at - 1 - j]);
                }
            }
        }
        self.for_each_along(start, false, &f, Ghost(before));
        let ghost first = choose|steps: Seq<Tree<T>>|
            {
                &&& steps.len() == before.len() + 1
                &&& steps[0] == old(self).arena()
                &&& steps[before.len() as int] == self.arena()
                &&& forall|j: int|
                    #![trigger before[j]]
                    0 <= j < before.len() ==> exists|n: &mut NodeMut<'_, T>| #[trigger]
                        f.ensures((n,), ()) && n.index() == before[j] && n.arena() == steps[j]
                            && final(n).arena() == steps[j + 1]
            };
        let ghost mid = self.arena();
        f(&mut *self);
        let ghost view2 = self.tree@;
        let start = self.tree.next_sibling_index(self.index);
        proof {
            self.tree.lemma_view_valid();
            assert(view2.parents == view.parents);
            assert(view2.children == view.children);
            assert(view2.next_siblings(me) == after);
            if view2.parents[me] is Some {
                let p = view2.parents[me].unwrap();
                let at = view2.position(me);
                view2.lemma_child_slot(me);
                assert forall|j: int| 0 <= j < after.len() implies #[trigger] Self::linked_at(
                    view2,
                    true,
                    after,
                    j,
                ) by {
                    view2.lemma_position(p, at + 1 + j);
                    assert(after[j] == view2.children[p][at + 1 + j]);
                }
            }
        }
        let ghost turned = self.arena();
        self.for_each_along(start, true, &f, Ghost(after));
        proof {
            let second = choose|steps: Seq<Tree<T>>|
                {
                    &&& steps.len() == after.len() + 1
                    &&& steps[0] == turned
                    &&& steps[after.len() as int] == self.arena()
                    &&& forall|j: int|
                        #![trigger after[j]]
                        0 <= j < after.len() ==> exists|n: &mut NodeMut<'_, T>| #[trigger]
                            f.ensures((n,), ()) && n.index() == after[j] && n.arena() == steps[j]
                                && final(n).arena() == steps[j + 1]
                };
            let steps = first + second;
            let a = before.len() as int;
            assert(order =~= before + seq![me] + after);
            assert forall|j: int| #![trigger order[j]] 0 <= j < order.len() implies exists|
                n: &mut NodeMut<'_, T>,
            | #[trigger]
                f.ensures((n,), ()) && n.index() == order[j] && n.arena() == steps[j]
                    && final(n).arena() == steps[j + 1] by {
                if j < a {
                    assert(order[j] == before[j]);
                    assert(steps[j] == first[j]);
                    assert(steps[j + 1] == first[j + 1]);
                } else if j == a {
                    assert(steps[j] == first[a]);
                    assert(steps[j + 1] == second[0]);
                } else {
                    assert(order[j] == after[j - a - 1]);
                    assert(steps[j] == second[j - a - 1]);
                    assert(steps[j + 1] == second[j - a]);
                }
            }
            assert(steps[0] == first[0]);
            assert(steps[order.len() as int] == second[after.len() as int]);
            assert(steps.len() == order.len() + 1);
            assert(steps[0] == old(self).arena());
            assert(steps[order.len() as int] == self.arena());
            assert(order == old(self).arena()@.siblings_around(old(self).index()));
        }
    }
}

impl<'a, T> From<NodeMut<'a, T>> for NodeRef<'a, T> {
    /// Gives up the right to write and keeps the place.
    fn from(node: NodeMut<'a, T>) -> (r: Self) {
        node.into_ref()
    }
}

impl<'a, T> vstd::std_specs::convert::FromSpecImpl<NodeMut<'a, T>> for NodeRef<'a, T> {
    open spec fn obeys_from_spec() -> bool {
        true
    }

    open spec fn from_spec(node: NodeMut<'a, T>) -> Self {
        node.as_node_ref()
    }
}

impl<'a, T> NodeMut<'a, T> {
    /// Runs the callback on this node and on every node below it, a node before
    /// its children and the children first to last. The callback must leave the
    /// links as they are; it may change values. The next node is looked up
    /// before the callback runs. The tree must be a forest, or the walk would
    /// not end.
    pub fn for_each_descendant<F: Fn(&mut NodeMut<'_, T>)>(&mut self, f: F)
        requires
            old(self).wf(),
            old(self).arena()@.is_forest(),
            forall|n: &mut NodeMut<'_, T>| n.wf() ==> #[trigger] f.requires((n,)),
            forall|n: &mut NodeMut<'_, T>| #[trigger]
                f.ensures((n,), ()) ==> Self::kept_shape(*n, *final(n))
                    && *final(final(n).loan()) == *final(n.loan()),
        ensures
            Self::kept_shape(*old(self), *final(self)),
            *final(final(self).loan()) == *final(old(self).loan()),
            exists|order: Seq<int>, steps: Seq<Tree<T>>|
                {
                    &&& #[trigger] old(self).arena()@.is_walk(old(self).index(), order)
                    &&& #[trigger] steps.len() == order.len() + 1
                    &&& steps[0] == old(self).arena()
                    &&& steps[order.len() as int] == final(self).arena()
                    &&& forall|j: int|
                        #![trigger order[j]]
                        0 <= j < order.len() ==> exists|n: &mut NodeMut<'_, T>| #[trigger]
                            f.ensures((n,), ()) && n.index() == order[j] && n.arena() == steps[j]
                                && final(n).arena() == steps[j + 1]
                },
    {
        let ghost view = self.tree@;
        let ghost root = self.index as int;
        let ghost mut order: Seq<int> = Seq::empty();
        let ghost mut steps: Seq<Tree<T>> = seq![*self.tree];
        let mut next: Option<usize> = Some(self.index);
        proof {
            self.tree.lemma_view_valid();
            view.lemma_reaches_self(root);
        }
        while next.is_some()
            invariant
                self.tree.wf(),
                self.index == old(self).index,
                self.tree.owner() == old(self).tree.owner(),
                self.tree@.same_shape(view),
                view == old(self).tree@,
                root == self.index as int,
                view.valid(),
                view.is_forest(),
                view.has(root),
                *final(self.tree) == *final(old(self).tree),
                next matches Some(n) ==> view.has(n as int) && view.reaches(n as int, root),
                order.len() == 0 ==> next == Some(self.index),
                order.len() > 0 ==> order[0] == root,
                forall|j: int|
                    0 <= j < order.len() ==> #[trigger] view.walk_link(
                        root,
                        order,
                        j,
                        as_index(next),
                    ),
                steps.len() == order.len() + 1,
                steps[0] == old(self).arena(),
                steps[order.len() as int] == *self.tree,
                forall|j: int|
                    #![trigger order[j]]
                    0 <= j < order.len() ==> exists|n: &mut NodeMut<'_, T>| #[trigger]
                        f.ensures((n,), ()) && n.index() == order[j] && n.arena() == steps[j]
                            && final(n).arena() == steps[j + 1],
                forall|n: &mut NodeMut<'_, T>| n.wf() ==> #[trigger] f.requires((n,)),
                forall|n: &mut NodeMut<'_, T>| #[trigger]
                    f.ensures((n,), ()) ==> Self::kept_shape(*n, *final(n))
                        && *final(final(n).loan()) == *final(n.loan()),
            decreases
                    match next {
                        Some(n) => view.ahead(root, n as int) + 1,
                        None => 0,
                    },
        {
            let i: usize = next.unwrap();
            let ghost now = self.tree@;
            let ghost earlier_order = order;
            let ghost earlier_next = next;
            proof {
                view.lemma_forest_by_parents(now);
                view.lemma_enters_after_by_shape(now, root, i as int);
            }
            next = self.tree.walk_next_index(self.index, i);
            proof {
                if view.children[i as int].len() > 0 {
                    view.lemma_walk_down(root, i as int);
                } else {
                    view.lemma_walk_over(root, i as int);
                    assert(view.span(i as int, 0, 0) == 0);
                }
            }
            let mut node = NodeMut { index: i, tree: &mut *self.tree };
            f(&mut node);
            proof {
                let earlier = steps;
                steps = steps.push(*self.tree);
                order = order.push(i as int);
                assert forall|j: int| 0 <= j < order.len() implies #[trigger] view.walk_link(
                    root,
                    order,
                    j,
                    as_index(next),
                ) by {
                    if j < earlier_order.len() {
                        assert(view.walk_link(root, earlier_order, j, as_index(earlier_next)));
                        assert(order[j] == earlier_order[j]);
                        if j + 1 < earlier_order.len() {
                            assert(order[j + 1] == earlier_order[j + 1]);
                        }
                    }
                }
                assert forall|j: int| #![trigger order[j]] 0 <= j < order.len() implies exists|
                    n: &mut NodeMut<'_, T>,
                | #[trigger]
                    f.ensures((n,), ()) && n.index() == order[j] && n.arena() == steps[j]
                        && final(n).arena() == steps[j + 1] by {
                    if j < earlier_order.len() {
                        assert(order[j] == earlier_order[j]);
                        assert(earlier[j] == steps[j]);
                        assert(earlier[j + 1] == steps[j + 1]);
                    }
                }
            }
        }
        proof {
            assert(view.is_walk(root, order));
        }
    }
}

} // verus!
