//! Walks over a tree: along one axis, over the children of a node from both
//! ends, over a subtree edge by edge, and over the arena in creation order.

use vstd::prelude::*;
use vstd::std_specs::cmp::PartialEqSpecImpl;
use crate::node_ref::NodeRef;
use crate::tree::Tree;

verus! {

/// Walks the ancestors of a node, nearest first. It holds the node that it will
/// hand out next.
#[derive(Debug)]
pub struct Ancestors<'a, T> {
    node: Option<NodeRef<'a, T>>,
}

impl<'a, T> Clone for Ancestors<'a, T> {
    fn clone(&self) -> (r: Self)
        ensures
            r == *self,
    {
        *self
    }
}

impl<'a, T> Copy for Ancestors<'a, T> {

}

impl<'a, T> Ancestors<'a, T> {
    /// The node that `next` will hand out.
    pub closed spec fn pending(&self) -> Option<NodeRef<'a, T>> {
        self.node
    }

    /// The pending node, if any, is a node of a well-formed tree.
    pub open spec fn wf(&self) -> bool {
        self.pending() matches Some(n) ==> n.wf()
    }

    /// Hands out the pending node and moves one step on.
    pub fn next(&mut self) -> (r: Option<NodeRef<'a, T>>)
        requires
            old(self).wf(),
        ensures
            r == old(self).pending(),
            final(self).wf(),
            match r {
                Some(n) => n.leads_to(final(self).pending(), n.arena()@.parents[n.index()]),
                None => final(self).pending() is None,
            },
    {
        let node = self.node;
        self.node = match node {
            Some(n) => n.parent(),
            None => None,
        };
        node
    }
}

/// Walks the siblings before a node, nearest first. It holds the node that it
/// will hand out next.
#[derive(Debug)]
pub struct PrevSiblings<'a, T> {
    node: Option<NodeRef<'a, T>>,
}

impl<'a, T> Clone for PrevSiblings<'a, T> {
    fn clone(&self) -> (r: Self)
        ensures
            r == *self,
    {
        *self
    }
}

impl<'a, T> Copy for PrevSiblings<'a, T> {

}

impl<'a, T> PrevSiblings<'a, T> {
    /// The node that `next` will hand out.
    pub closed spec fn pending(&self) -> Option<NodeRef<'a, T>> {
        self.node
    }

    /// The pending node, if any, is a node of a well-formed tree.
    pub open spec fn wf(&self) -> bool {
        self.pending() matches Some(n) ==> n.wf()
    }

    /// Hands out the pending node and moves one step on.
    pub fn next(&mut self) -> (r: Option<NodeRef<'a, T>>)
        requires
            old(self).wf(),
        ensures
            r == old(self).pending(),
            final(self).wf(),
            match r {
                Some(n) => n.leads_to(final(self).pending(), n.arena()@.prev_sibling(n.index())),
                None => final(self).pending() is None,
            },
    {
        let node = self.node;
        self.node = match node {
            Some(n) => n.prev_sibling(),
            None => None,
        };
        node
    }
}

/// Walks the siblings after a node, nearest first. It holds the node that it
/// will hand out next.
#[derive(Debug)]
pub struct NextSiblings<'a, T> {
    node: Option<NodeRef<'a, T>>,
}

impl<'a, T> Clone for NextSiblings<'a, T> {
    fn clone(&self) -> (r: Self)
        ensures
            r == *self,
    {
        *self
    }
}

impl<'a, T> Copy for NextSiblings<'a, T> {

}

impl<'a, T> NextSiblings<'a, T> {
    /// The node that `next` will hand out.
    pub closed spec fn pending(&self) -> Option<NodeRef<'a, T>> {
        self.node
    }

    /// The pending node, if any, is a node of a well-formed tree.
    pub open spec fn wf(&self) -> bool {
        self.pending() matches Some(n) ==> n.wf()
    }

    /// Hands out the pending node and moves one step on.
    pub fn next(&mut self) -> (r: Option<NodeRef<'a, T>>)
        requires
            old(self).wf(),
        ensures
            r == old(self).pending(),
            final(self).wf(),
            match r {
                Some(n) => n.leads_to(final(self).pending(), n.arena()@.next_sibling(n.index())),
                None => final(self).pending() is None,
            },
    {
        let node = self.node;
        self.node = match node {
            Some(n) => n.next_sibling(),
            None => None,
        };
        node
    }
}

/// Walks the first child of a node, the first child of that child, and so on.
/// It holds the node that it will hand out next.
#[derive(Debug)]
pub struct FirstChildren<'a, T> {
    node: Option<NodeRef<'a, T>>,
}

impl<'a, T> Clone for FirstChildren<'a, T> {
    fn clone(&self) -> (r: Self)
        ensures
            r == *self,
    {
        *self
    }
}

impl<'a, T> Copy for FirstChildren<'a, T> {

}

impl<'a, T> FirstChildren<'a, T> {
    /// The node that `next` will hand out.
    pub closed spec fn pending(&self) -> Option<NodeRef<'a, T>> {
        self.node
    }

    /// The pending node, if any, is a node of a well-formed tree.
    pub open spec fn wf(&self) -> bool {
        self.pending() matches Some(n) ==> n.wf()
    }

    /// Hands out the pending node and moves one step on.
    pub fn next(&mut self) -> (r: Option<NodeRef<'a, T>>)
        requires
            old(self).wf(),
        ensures
            r == old(self).pending(),
            final(self).wf(),
            match r {
                Some(n) => n.leads_to(final(self).pending(), n.arena()@.first_child(n.index())),
                None => final(self).pending() is None,
            },
    {
        let node = self.node;
        self.node = match node {
            Some(n) => n.first_child(),
            None => None,
        };
        node
    }
}

/// Walks the last child of a node, the last child of that child, and so on. It
/// holds the node that it will hand out next.
#[derive(Debug)]
pub struct LastChildren<'a, T> {
    node: Option<NodeRef<'a, T>>,
}

impl<'a, T> Clone for LastChildren<'a, T> {
    fn clone(&self) -> (r: Self)
        ensures
            r == *self,
    {
        *self
    }
}

impl<'a, T> Copy for LastChildren<'a, T> {

}

impl<'a, T> LastChildren<'a, T> {
    /// The node that `next` will hand out.
    pub closed spec fn pending(&self) -> Option<NodeRef<'a, T>> {
        self.node
    }

    /// The pending node, if any, is a node of a well-formed tree.
    pub open spec fn wf(&self) -> bool {
        self.pending() matches Some(n) ==> n.wf()
    }

    /// Hands out the pending node and moves one step on.
    pub fn next(&mut self) -> (r: Option<NodeRef<'a, T>>)
        requires
            old(self).wf(),
        ensures
            r == old(self).pending(),
            final(self).wf(),
            match r {
                Some(n) => n.leads_to(final(self).pending(), n.arena()@.last_child(n.index())),
                None => final(self).pending() is None,
            },
    {
        let node = self.node;
        self.node = match node {
            Some(n) => n.last_child(),
            None => None,
        };
        node
    }
}

/// Walks the children of a node from both ends.
#[derive(Debug)]
pub struct Children<'a, T> {
    front: Option<NodeRef<'a, T>>,
    back: Option<NodeRef<'a, T>>,
}

impl<'a, T> Clone for Children<'a, T> {
    fn clone(&self) -> (r: Self)
        ensures
            r == *self,
    {
        *self
    }
}

impl<'a, T> Copy for Children<'a, T> {

}

impl<'a, T> View for Children<'a, T> {
    type V = Seq<NodeRef<'a, T>>;

    /// The children still to come, first to last.
    closed spec fn view(&self) -> Seq<NodeRef<'a, T>> {
        match (self.front, self.back) {
            (Some(f), Some(b)) => {
                let v = f.arena()@;
                let kids = v.children[v.parents[f.index()].unwrap()];
                let lo = v.position(f.index());
                let hi = v.position(b.index());
                Seq::new((hi - lo + 1) as nat, |j: int| f.on(kids[lo + j]))
            },
            _ => Seq::empty(),
        }
    }
}

impl<'a, T> Children<'a, T> {
    /// Both ends stand on children of one parent, the front not behind the
    /// back; or nothing is left.
    pub closed spec fn wf(&self) -> bool {
        match (self.front, self.back) {
            (Some(f), Some(b)) => {
                let v = f.arena()@;
                &&& f.wf()
                &&& b.wf()
                &&& b.arena() == f.arena()
                &&& v.parents[f.index()] is Some
                &&& v.parents[b.index()] == v.parents[f.index()]
                &&& v.position(f.index()) <= v.position(b.index())
            },
            (None, None) => true,
            _ => false,
        }
    }

    /// Hands out the first of the children still to come.
    pub fn next(&mut self) -> (r: Option<NodeRef<'a, T>>)
        requires
            old(self).wf(),
        ensures
            final(self).wf(),
            r == if old(self)@.len() > 0 {
                Some(old(self)@.first())
            } else {
                None
            },
            final(self)@ == if old(self)@.len() > 0 {
                old(self)@.drop_first()
            } else {
                old(self)@
            },
    {
        match (self.front, self.back) {
            (Some(f), Some(b)) => {
                proof {
                    let v = f.arena()@;
                    f.arena().lemma_view_valid();
                    v.lemma_child_slot(f.index());
                    v.lemma_child_slot(b.index());
                    let p = v.parents[f.index()].unwrap();
                    let lo = v.position(f.index());
                    f.lemma_on(f.index());
                    if lo + 1 < v.children[p].len() {
                        v.lemma_position(p, lo + 1);
                        f.lemma_on(v.children[p][lo + 1]);
                    }
                }
                if f.slot() == b.slot() {
                    self.front = None;
                    self.back = None;
                    proof {
                        assert(old(self)@ =~= seq![f]);
                        assert(self@ =~= old(self)@.drop_first());
                    }
                } else {
                    self.front = f.next_sibling();
                    proof {
                        assert(self@ =~= old(self)@.drop_first());
                    }
                }
                Some(f)
            },
            _ => None,
        }
    }

    /// Hands out the last of the children still to come.
    pub fn next_back(&mut self) -> (r: Option<NodeRef<'a, T>>)
        requires
            old(self).wf(),
        ensures
            final(self).wf(),
            r == if old(self)@.len() > 0 {
                Some(old(self)@.last())
            } else {
                None
            },
            final(self)@ == if old(self)@.len() > 0 {
                old(self)@.drop_last()
            } else {
                old(self)@
            },
    {
        match (self.front, self.back) {
            (Some(f), Some(b)) => {
                proof {
                    let v = f.arena()@;
                    f.arena().lemma_view_valid();
                    v.lemma_child_slot(f.index());
                    v.lemma_child_slot(b.index());
                    let p = v.parents[f.index()].unwrap();
                    let hi = v.position(b.index());
                    f.lemma_on(b.index());
                    b.lemma_on(b.index());
                    f.lemma_same(&b);
                    if hi > 0 {
                        v.lemma_position(p, hi - 1);
                        b.lemma_on(v.children[p][hi - 1]);
                    }
                }
                if f.slot() == b.slot() {
                    self.front = None;
                    self.back = None;
                    proof {
                        assert(old(self)@ =~= seq![b]);
                        assert(self@ =~= old(self)@.drop_last());
                    }
                } else {
                    self.back = b.prev_sibling();
                    proof {
                        assert(self@ =~= old(self)@.drop_last());
                    }
                }
                Some(b)
            },
            _ => None,
        }
    }
}

/// One step of a walk over a subtree: entering a node or leaving it.
#[derive(Debug)]
pub enum Edge<'a, T> {
    /// The walk enters the node.
    Open(NodeRef<'a, T>),
    /// The walk leaves the node: all its descendants have been walked.
    Close(NodeRef<'a, T>),
}

impl<'a, T> Clone for Edge<'a, T> {
    fn clone(&self) -> (r: Self)
        ensures
            r == *self,
    {
        *self
    }
}

impl<'a, T> Copy for Edge<'a, T> {

}

impl<'a, T> Edge<'a, T> {
    /// The node that the edge enters or leaves.
    pub open spec fn node(&self) -> NodeRef<'a, T> {
        match *self {
            Edge::Open(n) => n,
            Edge::Close(n) => n,
        }
    }
}

/// Walks a subtree depth first, without recursion, and hands out every node
/// twice: when the walk enters it and when the walk leaves it.
#[derive(Debug)]
pub struct Traverse<'a, T> {
    root: NodeRef<'a, T>,
    edge: Option<Edge<'a, T>>,
}

impl<'a, T> Clone for Traverse<'a, T> {
    fn clone(&self) -> (r: Self)
        ensures
            r == *self,
    {
        *self
    }
}

impl<'a, T> Copy for Traverse<'a, T> {

}

impl<'a, T> Traverse<'a, T> {
    /// The node at which the walk starts and ends.
    pub closed spec fn root(&self) -> NodeRef<'a, T> {
        self.root
    }

    /// The edge handed out last: `None` before the walk starts and after it has
    /// ended.
    pub closed spec fn edge(&self) -> Option<Edge<'a, T>> {
        self.edge
    }

    /// The root and the node of the last edge are nodes of one well-formed
    /// tree.
    pub open spec fn wf(&self) -> bool {
        &&& self.root().wf()
        &&& self.edge() matches Some(e) ==> e.node().wf() && e.node().arena() == self.root().arena()
    }

    /// The edge that follows `edge` in the walk from `root`. After entering a
    /// node the walk enters its first child, or leaves the node if it has none.
    /// After leaving the root the walk ends. After leaving another node it
    /// enters the next sibling, or leaves the parent if there is no next
    /// sibling.
    pub open spec fn following(root: NodeRef<'a, T>, edge: Option<Edge<'a, T>>) -> Option<
        Edge<'a, T>,
    > {
        match edge {
            None => Some(Edge::Open(root)),
            Some(Edge::Open(n)) => match n.arena()@.first_child(n.index()) {
                Some(c) => Some(Edge::Open(n.on(c))),
                None => Some(Edge::Close(n)),
            },
            Some(Edge::Close(n)) => if n.index() == root.index() {
                None
            } else {
                match n.arena()@.next_sibling(n.index()) {
                    Some(s) => Some(Edge::Open(n.on(s))),
                    None => match n.arena()@.parents[n.index()] {
                        Some(p) => Some(Edge::Close(n.on(p))),
                        None => None,
                    },
                }
            },
        }
    }

    /// Moves the walk one edge on and hands that edge out.
    pub fn next(&mut self) -> (r: Option<Edge<'a, T>>)
        requires
            old(self).wf(),
        ensures
            final(self).wf(),
            final(self).root() == old(self).root(),
            final(self).edge() == r,
            r == Self::following(old(self).root(), old(self).edge()),
    {
        match self.edge {
            None => {
                self.edge = Some(Edge::Open(self.root));
            },
            Some(Edge::Open(node)) => {
                if let Some(first_child) = node.first_child() {
                    self.edge = Some(Edge::Open(first_child));
                } else {
                    self.edge = Some(Edge::Close(node));
                }
            },
            Some(Edge::Close(node)) => {
                if node == self.root {
                    self.edge = None;
                } else if let Some(next_sibling) = node.next_sibling() {
                    self.edge = Some(Edge::Open(next_sibling));
                } else {
                    self.edge = match node.parent() {
                        Some(parent) => Some(Edge::Close(parent)),
                        None => None,
                    };
                }
            },
        }
        self.edge
    }
}

/// Whether the edge leaves a node.
fn is_close<'a, T>(edge: &Option<Edge<'a, T>>) -> (r: bool)
    ensures
        r == (*edge matches Some(Edge::Close(_))),
{
    match edge {
        Some(Edge::Close(_)) => true,
        _ => false,
    }
}

/// Walks a subtree depth first and hands out every node once, a node before its
/// children and the children first to last.
#[derive(Debug)]
pub struct Descendants<'a, T> {
    inner: Traverse<'a, T>,
}

impl<'a, T> Clone for Descendants<'a, T> {
    fn clone(&self) -> (r: Self)
        ensures
            r == *self,
    {
        *self
    }
}

impl<'a, T> Copy for Descendants<'a, T> {

}

impl<'a, T> Descendants<'a, T> {
    /// The node at which the walk starts.
    pub closed spec fn root(&self) -> NodeRef<'a, T> {
        self.inner.root
    }

    /// The node handed out last: `None` before the walk starts and after it has
    /// ended.
    pub closed spec fn last(&self) -> Option<NodeRef<'a, T>> {
        match self.inner.edge {
            Some(e) => Some(e.node()),
            None => None,
        }
    }

    /// The walk is over a well-formed forest and stands on a node under its
    /// root.
    pub closed spec fn wf(&self) -> bool {
        &&& self.inner.wf()
        &&& self.inner.root.arena()@.is_forest()
        &&& match self.inner.edge {
            Some(Edge::Open(n)) => n.arena()@.reaches(n.index(), self.inner.root.index()),
            Some(Edge::Close(_)) => false,
            None => true,
        }
    }

    /// The node that follows `last` in the walk from `root`: the root at the
    /// start, and from there on the node that the walk enters next.
    pub open spec fn following(root: NodeRef<'a, T>, last: Option<NodeRef<'a, T>>) -> Option<
        NodeRef<'a, T>,
    > {
        match last {
            None => Some(root),
            Some(n) => root.toward(n.arena()@.walk_next(root.index(), n.index())),
        }
    }

    /// The number of nodes still to come.
    pub open spec fn ahead(&self) -> nat {
        match self.last() {
            None => self.root().arena()@.size(self.root().index()),
            Some(n) => self.root().arena()@.ahead(self.root().index(), n.index()),
        }
    }

    /// Hands out the next node of the walk. Every node handed out leaves one
    /// node less to come.
    pub fn next(&mut self) -> (r: Option<NodeRef<'a, T>>)
        requires
            old(self).wf(),
        ensures
            final(self).wf(),
            final(self).root() == old(self).root(),
            final(self).last() == r,
            r == Self::following(old(self).root(), old(self).last()),
            r matches Some(n) ==> n.wf() && n.arena() == old(self).root().arena()
                && n.arena()@.reaches(n.index(), old(self).root().index()),
            r is Some ==> final(self).ahead() + 1 == old(self).ahead(),
            r is None ==> old(self).ahead() == 0,
    {
        let ghost root = self.inner.root;
        let ghost view = root.arena()@;
        let ghost rank = view.some_rank();
        let ghost expected = Self::following(root, old(self).last());
        let mut edge = self.inner.next();
        proof {
            assert(view.ranked_by(rank));
            root.arena().lemma_view_valid();
            view.lemma_reaches_self(root.index());
            match old(self).inner.edge {
                Some(Edge::Open(n)) => {
                    root.lemma_same(&n);
                    if view.children[n.index()].len() > 0 {
                        view.lemma_walk_down(root.index(), n.index());
                        n.lemma_on(view.children[n.index()][0]);
                    } else {
                        view.lemma_walk_over(root.index(), n.index());
                        assert(view.span(n.index(), 0, 0) == 0);
                        if view.enters_after(root.index(), n.index()) is None {
                            view.lemma_walk_end(root.index(), n.index());
                        }
                    }
                },
                _ => {},
            }
        }
        while is_close(&edge)
            invariant
                self.inner.wf(),
                self.inner.root == root,
                self.inner.edge == edge,
                view == root.arena()@,
                view.is_forest(),
                view.valid(),
                view.ranked_by(rank),
                rank == view.some_rank(),
                match edge {
                    Some(Edge::Close(n)) => expected == root.toward(
                        view.enters_after(root.index(), n.index()),
                    ),
                    Some(Edge::Open(n)) => expected == Some(n),
                    None => expected is None,
                },
            decreases
                    match edge {
                        Some(Edge::Close(n)) => rank[n.index()] + 1,
                        _ => 0,
                    },
        {
            proof {
                let n = edge.unwrap().node();
                assert(n.wf() && n.arena() == root.arena());
                root.lemma_same(&n);
                assert(view.parents[n.index()] matches Some(p) ==> rank[p] < rank[n.index()]);
                if view.parents[n.index()] is Some {
                    n.lemma_on(view.parents[n.index()].unwrap());
                }
                if view.next_sibling(n.index()) is Some {
                    n.lemma_on(view.next_sibling(n.index()).unwrap());
                }
            }
            edge = self.inner.next();
        }
        proof {
            match expected {
                Some(n) => {
                    match old(self).inner.edge {
                        Some(Edge::Open(m)) => {
                            root.lemma_on(view.walk_next(root.index(), m.index()).unwrap());
                        },
                        _ => {
                            root.lemma_on(root.index());
                        },
                    }
                },
                None => {},
            }
        }
        match edge {
            Some(Edge::Open(n)) => Some(n),
            _ => None,
        }
    }
}

impl<'a, T> NodeRef<'a, T> {
    /// A walk over this node and all nodes below it, a node before its
    /// children.
    pub fn descendants(&self) -> (it: Descendants<'a, T>)
        requires
            self.wf(),
            self.arena()@.is_forest(),
        ensures
            it.wf(),
            it.root() == *self,
            it.last() is None,
    {
        Descendants { inner: self.traverse() }
    }

    /// The children of this node as cursors, first to last.
    pub open spec fn child_nodes(&self) -> Seq<NodeRef<'a, T>> {
        let kids = self.arena()@.children[self.index()];
        Seq::new(kids.len(), |j: int| self.on(kids[j]))
    }

    /// A walk over the ancestors of this node, from its parent up.
    pub fn ancestors(&self) -> (it: Ancestors<'a, T>)
        requires
            self.wf(),
        ensures
            it.wf(),
            self.leads_to(it.pending(), self.arena()@.parents[self.index()]),
    {
        Ancestors { node: self.parent() }
    }

    /// A walk over the siblings before this node, from the nearest on.
    pub fn prev_siblings(&self) -> (it: PrevSiblings<'a, T>)
        requires
            self.wf(),
        ensures
            it.wf(),
            self.leads_to(it.pending(), self.arena()@.prev_sibling(self.index())),
    {
        PrevSiblings { node: self.prev_sibling() }
    }

    /// A walk over the siblings after this node, from the nearest on.
    pub fn next_siblings(&self) -> (it: NextSiblings<'a, T>)
        requires
            self.wf(),
        ensures
            it.wf(),
            self.leads_to(it.pending(), self.arena()@.next_sibling(self.index())),
    {
        NextSiblings { node: self.next_sibling() }
    }

    /// A walk over the chain of first children below this node.
    pub fn first_children(&self) -> (it: FirstChildren<'a, T>)
        requires
            self.wf(),
        ensures
            it.wf(),
            self.leads_to(it.pending(), self.arena()@.first_child(self.index())),
    {
        FirstChildren { node: self.first_child() }
    }

    /// A walk over the chain of last children below this node.
    pub fn last_children(&self) -> (it: LastChildren<'a, T>)
        requires
            self.wf(),
        ensures
            it.wf(),
            self.leads_to(it.pending(), self.arena()@.last_child(self.index())),
    {
        LastChildren { node: self.last_child() }
    }

    /// A walk over the children of this node, from both ends.
    pub fn children(&self) -> (it: Children<'a, T>)
        requires
            self.wf(),
        ensures
            it.wf(),
            it@ == self.child_nodes(),
    {
        let it = Children { front: self.first_child(), back: self.last_child() };
        proof {
            let v = self.arena()@;
            let kids = v.children[self.index()];
            self.arena().lemma_view_valid();
            if kids.len() > 0 {
                v.lemma_position(self.index(), 0);
                v.lemma_position(self.index(), kids.len() - 1);
                self.lemma_on(kids[0]);
                self.lemma_on(kids[kids.len() - 1]);
            }
            assert(it@ =~= self.child_nodes());
        }
        it
    }

    /// Where `needle` stands among the children of this node, counted from
    /// zero: `None` if it is not one of them. The children are walked from the
    /// first on.
    pub fn index_of_child(&self, needle: &Self) -> (r: Option<usize>)
        requires
            self.wf(),
        ensures
            match r {
                Some(k) => {
                    &&& k < self.arena()@.children[self.index()].len()
                    &&& self.arena()@.children[self.index()][k as int] == needle.index()
                    &&& needle.arena().owner() == self.arena().owner()
                },
                None => !(needle.arena().owner() == self.arena().owner()
                    && self.arena()@.children[self.index()].contains(needle.index())),
            },
    {
        let ghost kids = self.arena()@.children[self.index()];
        let mut it = self.children();
        let mut k: usize = 0;
        proof {
            self.arena().lemma_view_valid();
            self.arena().lemma_len_fits();
            self.arena()@.lemma_children_bound(self.index());
        }
        loop
            invariant
                self.wf(),
                self.arena()@.valid(),
                kids == self.arena()@.children[self.index()],
                kids.len() <= usize::MAX,
                it.wf(),
                0 <= k <= kids.len(),
                it@ == self.child_nodes().subrange(k as int, kids.len() as int),
                forall|j: int|
                    0 <= j < k ==> !(needle.arena().owner() == self.arena().owner() && kids[j]
                        == needle.index()),
            decreases kids.len() - k,
        {
            match it.next() {
                Some(child) => {
                    proof {
                        assert(child == self.child_nodes()[k as int]);
                        self.lemma_on(kids[k as int]);
                    }
                    if child == *needle {
                        return Some(k);
                    }
                    proof {
                        assert(it@ =~= self.child_nodes().subrange(k + 1, kids.len() as int));
                    }
                    k = k + 1;
                },
                None => {
                    return None;
                },
            }
        }
    }

    /// A walk over the subtree of this node, edge by edge.
    pub fn traverse(&self) -> (it: Traverse<'a, T>)
        requires
            self.wf(),
        ensures
            it.wf(),
            it.root() == *self,
            it.edge() is None,
    {
        Traverse { root: *self, edge: None }
    }
}

/// Hands out the values of all nodes, orphans too, in creation order.
#[derive(Debug)]
pub struct Values<'a, T> {
    tree: &'a Tree<T>,
    next: usize,
}

impl<'a, T> Clone for Values<'a, T> {
    fn clone(&self) -> (r: Self)
        ensures
            r == *self,
    {
        Values { tree: self.tree, next: self.next }
    }
}

impl<'a, T> View for Values<'a, T> {
    type V = Seq<T>;

    /// The values still to come.
    closed spec fn view(&self) -> Seq<T> {
        self.tree@.values.skip(self.next as int)
    }
}

impl<'a, T> Values<'a, T> {
    /// The walk is over a well-formed tree and has not run past its end.
    pub closed spec fn wf(&self) -> bool {
        self.tree.wf() && self.next <= self.tree@.len()
    }

    /// Hands out the next value.
    pub fn next(&mut self) -> (r: Option<&'a T>)
        requires
            old(self).wf(),
        ensures
            final(self).wf(),
            match r {
                Some(v) => old(self)@.len() > 0 && *v == old(self)@.first() && final(self)@
                    == old(self)@.drop_first(),
                None => old(self)@.len() == 0 && final(self)@ == old(self)@,
            },
    {
        if self.next < self.tree.len() {
            let v = self.tree.value_at(self.next);
            self.next = self.next + 1;
            proof {
                assert(self@ =~= old(self)@.drop_first());
            }
            Some(v)
        } else {
            None
        }
    }
}

/// Hands out the values of all nodes, orphans too, in creation order, each to
/// be changed in place.
#[derive(Debug)]
pub struct ValuesMut<'a, T> {
    pub tree: &'a mut Tree<T>,
    pub next: usize,
}

impl<'a, T> ValuesMut<'a, T> {
    /// The tree as the walk sees it now.
    pub open spec fn arena(&self) -> Tree<T> {
        *self.tree
    }

    /// The slot whose value comes next.
    pub open spec fn position(&self) -> int {
        self.next as int
    }

    /// The loan of the tree that the walk holds.
    pub open spec fn loan(self) -> &'a mut Tree<T> {
        self.tree
    }

    /// The walk is over a well-formed tree and has not run past its end.
    pub open spec fn wf(&self) -> bool {
        self.arena().wf() && 0 <= self.position() <= self.arena()@.len()
    }

    /// Hands out the next value. What is written to it is the value of that
    /// node from then on.
    pub fn next(&mut self) -> (r: Option<&mut T>)
        requires
            old(self).wf(),
        ensures
            final(self).wf(),
            final(self).arena().owner() == old(self).arena().owner(),
            *final(final(self).loan()) == *final(old(self).loan()),
            match r {
                Some(v) => {
                    &&& old(self).position() < old(self).arena()@.len()
                    &&& *v == old(self).arena()@.values[old(self).position()]
                    &&& final(self).position() == old(self).position() + 1
                    &&& final(self).arena()@ == old(self).arena()@.set_value(
                        old(self).position(),
                        *final(v),
                    )
                },
                None => {
                    &&& old(self).position() == old(self).arena()@.len()
                    &&& final(self).position() == old(self).position()
                    &&& final(self).arena() == old(self).arena()
                },
            },
    {
        if self.next < self.tree.len() {
            let i: usize = self.next;
            self.next = i + 1;
            Some(self.tree.value_at_mut(i))
        } else {
            None
        }
    }
}

/// Hands out the values of all nodes, orphans too, in creation order, and keeps
/// none.
#[derive(Debug)]
pub struct IntoValues<T> {
    rest: Vec<T>,
}

impl<T> View for IntoValues<T> {
    type V = Seq<T>;

    /// The values still to come.
    closed spec fn view(&self) -> Seq<T> {
        self.rest@.reverse()
    }
}

impl<T> IntoValues<T> {
    /// Hands out the next value.
    pub fn next(&mut self) -> (r: Option<T>)
        ensures
            match r {
                Some(v) => old(self)@.len() > 0 && v == old(self)@.first() && final(self)@
                    == old(self)@.drop_first(),
                None => old(self)@.len() == 0 && final(self)@ == old(self)@,
            },
    {
        let r = self.rest.pop();
        proof {
            if old(self).rest@.len() > 0 {
                assert(self@ =~= old(self)@.drop_first());
            }
        }
        r
    }
}

/// Hands out all nodes, orphans too, in creation order.
#[derive(Debug)]
pub struct Nodes<'a, T> {
    tree: &'a Tree<T>,
    next: usize,
}

impl<'a, T> View for Nodes<'a, T> {
    type V = Seq<NodeRef<'a, T>>;

    /// The nodes still to come.
    closed spec fn view(&self) -> Seq<NodeRef<'a, T>> {
        Seq::new(
            (self.tree@.len() - self.next) as nat,
            |j: int| NodeRef::spec_at(self.tree, self.next + j),
        )
    }
}

impl<'a, T> Nodes<'a, T> {
    /// The walk is over a well-formed tree and has not run past its end.
    pub closed spec fn wf(&self) -> bool {
        self.tree.wf() && self.next <= self.tree@.len()
    }

    /// Hands out the next node.
    pub fn next(&mut self) -> (r: Option<NodeRef<'a, T>>)
        requires
            old(self).wf(),
        ensures
            final(self).wf(),
            match r {
                Some(n) => old(self)@.len() > 0 && n == old(self)@.first() && final(self)@
                    == old(self)@.drop_first(),
                None => old(self)@.len() == 0 && final(self)@ == old(self)@,
            },
    {
        if self.next < self.tree.len() {
            let n = NodeRef::at(self.tree, self.next);
            self.next = self.next + 1;
            proof {
                assert(self@ =~= old(self)@.drop_first());
            }
            Some(n)
        } else {
            None
        }
    }
}

impl<T> Tree<T> {
    /// The nodes of this tree as cursors, in creation order.
    pub open spec fn all_nodes(&self) -> Seq<NodeRef<'_, T>> {
        Seq::new(self@.len(), |j: int| NodeRef::spec_at(self, j))
    }

    /// A walk over the values of all nodes in creation order.
    pub fn values(&self) -> (it: Values<'_, T>)
        requires
            self.wf(),
        ensures
            it.wf(),
            it@ == self@.values,
    {
        let it = Values { tree: self, next: 0 };
        proof {
            assert(it@ =~= self@.values);
        }
        it
    }

    /// A walk over the values of all nodes in creation order, each to be
    /// changed in place.
    pub fn values_mut(&mut self) -> (it: ValuesMut<'_, T>)
        requires
            old(self).wf(),
        ensures
            it.wf(),
            it.arena() == *old(self),
            it.position() == 0,
            *final(self) == *final(it.loan()),
    {
        ValuesMut { tree: self, next: 0 }
    }

    /// A walk that moves the values of all nodes out of the tree, in creation
    /// order.
    pub fn into_values(self) -> (it: IntoValues<T>)
        requires
            self.wf(),
        ensures
            it@ == self@.values,
    {
        let rest = self.take_values();
        let it = IntoValues { rest };
        proof {
            assert(it@ =~= self@.values);
        }
        it
    }

    /// A walk over all nodes, orphans too, in creation order.
    pub fn nodes(&self) -> (it: Nodes<'_, T>)
        requires
            self.wf(),
        ensures
            it.wf(),
            it@ == self.all_nodes(),
    {
        let it = Nodes { tree: self, next: 0 };
        proof {
            assert(it@ =~= self.all_nodes());
        }
        it
    }
}

/// Both are nothing, or both stand on the same slot of trees with the same tag.
pub open spec fn same_node<'a, T>(a: Option<NodeRef<'a, T>>, b: Option<NodeRef<'a, T>>) -> bool {
    match (a, b) {
        (Some(x), Some(y)) => x.index() == y.index() && x.arena().owner() == y.arena().owner(),
        (None, None) => true,
        _ => false,
    }
}

/// Both are nothing, or both enter, or both leave, the same slot of trees with
/// the same tag.
pub open spec fn same_edge<'a, T>(a: Option<Edge<'a, T>>, b: Option<Edge<'a, T>>) -> bool {
    match (a, b) {
        (Some(Edge::Open(x)), Some(Edge::Open(y))) => same_node(Some(x), Some(y)),
        (Some(Edge::Close(x)), Some(Edge::Close(y))) => same_node(Some(x), Some(y)),
        (None, None) => true,
        _ => false,
    }
}

fn is_same_node<'a, T>(a: Option<NodeRef<'a, T>>, b: Option<NodeRef<'a, T>>) -> (r: bool)
    ensures
        r == same_node(a, b),
{
    match (a, b) {
        (Some(x), Some(y)) => x == y,
        (None, None) => true,
        _ => false,
    }
}

fn is_same_edge<'a, T>(a: Option<Edge<'a, T>>, b: Option<Edge<'a, T>>) -> (r: bool)
    ensures
        r == same_edge(a, b),
{
    match (a, b) {
        (Some(Edge::Open(x)), Some(Edge::Open(y))) => x == y,
        (Some(Edge::Close(x)), Some(Edge::Close(y))) => x == y,
        (None, None) => true,
        _ => false,
    }
}

impl<'a, T> PartialEq for Ancestors<'a, T> {
    /// Two walks are equal when the same node is pending in both.
    fn eq(&self, other: &Self) -> (r: bool) {
        is_same_node(self.node, other.node)
    }
}

impl<'a, T> PartialEqSpecImpl for Ancestors<'a, T> {
    open spec fn obeys_eq_spec() -> bool {
        true
    }

    open spec fn eq_spec(&self, other: &Self) -> bool {
        same_node(self.pending(), other.pending())
    }
}

impl<'a, T> Eq for Ancestors<'a, T> {

}

impl<'a, T> PartialEq for PrevSiblings<'a, T> {
    /// Two walks are equal when the same node is pending in both.
    fn eq(&self, other: &Self) -> (r: bool) {
        is_same_node(self.node, other.node)
    }
}

impl<'a, T> PartialEqSpecImpl for PrevSiblings<'a, T> {
    open spec fn obeys_eq_spec() -> bool {
        true
    }

    open spec fn eq_spec(&self, other: &Self) -> bool {
        same_node(self.pending(), other.pending())
    }
}

impl<'a, T> Eq for PrevSiblings<'a, T> {

}

impl<'a, T> PartialEq for NextSiblings<'a, T> {
    /// Two walks are equal when the same node is pending in both.
    fn eq(&self, other: &Self) -> (r: bool) {
        is_same_node(self.node, other.node)
    }
}

impl<'a, T> PartialEqSpecImpl for NextSiblings<'a, T> {
    open spec fn obeys_eq_spec() -> bool {
        true
    }

    open spec fn eq_spec(&self, other: &Self) -> bool {
        same_node(self.pending(), other.pending())
    }
}

impl<'a, T> Eq for NextSiblings<'a, T> {

}

impl<'a, T> PartialEq for FirstChildren<'a, T> {
    /// Two walks are equal when the same node is pending in both.
    fn eq(&self, other: &Self) -> (r: bool) {
        is_same_node(self.node, other.node)
    }
}

impl<'a, T> PartialEqSpecImpl for FirstChildren<'a, T> {
    open spec fn obeys_eq_spec() -> bool {
        true
    }

    open spec fn eq_spec(&self, other: &Self) -> bool {
        same_node(self.pending(), other.pending())
    }
}

impl<'a, T> Eq for FirstChildren<'a, T> {

}

impl<'a, T> PartialEq for LastChildren<'a, T> {
    /// Two walks are equal when the same node is pending in both.
    fn eq(&self, other: &Self) -> (r: bool) {
        is_same_node(self.node, other.node)
    }
}

impl<'a, T> PartialEqSpecImpl for LastChildren<'a, T> {
    open spec fn obeys_eq_spec() -> bool {
        true
    }

    open spec fn eq_spec(&self, other: &Self) -> bool {
        same_node(self.pending(), other.pending())
    }
}

impl<'a, T> Eq for LastChildren<'a, T> {

}

impl<'a, T> Children<'a, T> {
    /// The child that `next` will hand out.
    pub closed spec fn front(&self) -> Option<NodeRef<'a, T>> {
        self.front
    }

    /// The child that `next_back` will hand out.
    pub closed spec fn back(&self) -> Option<NodeRef<'a, T>> {
        self.back
    }
}

impl<'a, T> PartialEq for Children<'a, T> {
    /// Two walks are equal when they have the same child at each end.
    fn eq(&self, other: &Self) -> (r: bool) {
        is_same_node(self.front, other.front) && is_same_node(self.back, other.back)
    }
}

impl<'a, T> PartialEqSpecImpl for Children<'a, T> {
    open spec fn obeys_eq_spec() -> bool {
        true
    }

    open spec fn eq_spec(&self, other: &Self) -> bool {
        same_node(self.front(), other.front()) && same_node(self.back(), other.back())
    }
}

impl<'a, T> Eq for Children<'a, T> {

}

impl<'a, T> PartialEq for Edge<'a, T> {
    /// Two edges are equal when both enter, or both leave, the same node.
    fn eq(&self, other: &Self) -> (r: bool) {
        is_same_edge(Some(*self), Some(*other))
    }
}

impl<'a, T> PartialEqSpecImpl for Edge<'a, T> {
    open spec fn obeys_eq_spec() -> bool {
        true
    }

    open spec fn eq_spec(&self, other: &Self) -> bool {
        same_edge(Some(*self), Some(*other))
    }
}

impl<'a, T> Eq for Edge<'a, T> {

}

impl<'a, T> PartialEq for Traverse<'a, T> {
    /// Two walks are equal when they have the same root and stand on the same
    /// edge.
    fn eq(&self, other: &Self) -> (r: bool) {
        is_same_node(Some(self.root), Some(other.root)) && is_same_edge(self.edge, other.edge)
    }
}

impl<'a, T> PartialEqSpecImpl for Traverse<'a, T> {
    open spec fn obeys_eq_spec() -> bool {
        true
    }

    open spec fn eq_spec(&self, other: &Self) -> bool {
        same_node(Some(self.root()), Some(other.root())) && same_edge(self.edge(), other.edge())
    }
}

impl<'a, T> Eq for Traverse<'a, T> {

}

} // verus!
