//! The mathematical model of an arena tree and the edits on it.

use vstd::prelude::*;

verus! {

/// A stored link, read as the model writes it.
pub open spec fn as_index(l: Option<usize>) -> Option<int> {
    match l {
        Some(i) => Some(i as int),
        None => None,
    }
}

/// What a tree is, apart from how its links are stored: node `i` carries
/// `values[i]`, hangs under `parents[i]` (or is an orphan), and has the ordered
/// children `children[i]`.
#[verifier::ext_equal]
pub struct TreeView<T> {
    pub values: Seq<T>,
    pub parents: Seq<Option<int>>,
    pub children: Seq<Seq<int>>,
}

impl<T> TreeView<T> {
    /// Number of nodes ever created.
    pub open spec fn len(self) -> nat {
        self.values.len()
    }

    /// `i` names a node of this tree.
    pub open spec fn has(self, i: int) -> bool {
        0 <= i < self.values.len()
    }

    /// Parents and child lists describe the same edges, and no child list names
    /// a node twice.
    pub open spec fn valid(self) -> bool {
        &&& self.values.len() >= 1
        &&& self.parents.len() == self.values.len()
        &&& self.children.len() == self.values.len()
        &&& forall|p: int, j: int|
            self.has(p) && 0 <= j < self.children[p].len() ==> {
                &&& self.has(#[trigger] self.children[p][j])
                &&& self.parents[self.children[p][j]] == Some(p)
            }
        &&& forall|p: int, j: int, k: int|
            self.has(p) && 0 <= j < k < self.children[p].len() ==> #[trigger] self.children[p][j]
                != #[trigger] self.children[p][k]
        &&& forall|c: int|
            self.has(c) ==> match #[trigger] self.parents[c] {
                Some(p) => self.has(p) && self.children[p].contains(c),
                None => true,
            }
    }

    /// A node without a parent.
    pub open spec fn is_orphan(self, i: int) -> bool {
        self.parents[i] is None
    }

    /// Where `i` stands among the children of its parent.
    pub open spec fn position(self, i: int) -> int
        recommends
            self.parents[i] is Some,
    {
        self.children[self.parents[i].unwrap()].index_of(i)
    }

    /// The first child of `i`, if it has children.
    pub open spec fn first_child(self, i: int) -> Option<int> {
        if self.children[i].len() > 0 {
            Some(self.children[i].first())
        } else {
            None
        }
    }

    /// The last child of `i`, if it has children.
    pub open spec fn last_child(self, i: int) -> Option<int> {
        if self.children[i].len() > 0 {
            Some(self.children[i].last())
        } else {
            None
        }
    }

    /// The child that stands just before `i` in the list of its parent.
    pub open spec fn prev_sibling(self, i: int) -> Option<int> {
        match self.parents[i] {
            Some(p) => if self.position(i) > 0 {
                Some(self.children[p][self.position(i) - 1])
            } else {
                None
            },
            None => None,
        }
    }

    /// The child that stands just after `i` in the list of its parent.
    pub open spec fn next_sibling(self, i: int) -> Option<int> {
        match self.parents[i] {
            Some(p) => if self.position(i) + 1 < self.children[p].len() {
                Some(self.children[p][self.position(i) + 1])
            } else {
                None
            },
            None => None,
        }
    }

    /// The tree with one node: the root.
    pub open spec fn single(root: T) -> Self {
        TreeView { values: seq![root], parents: seq![None], children: seq![Seq::empty()] }
    }

    /// One more node at the end of the arena, linked to nothing.
    pub open spec fn push_orphan(self, value: T) -> Self {
        TreeView {
            values: self.values.push(value),
            parents: self.parents.push(None),
            children: self.children.push(Seq::empty()),
        }
    }

    /// The same shape with another value at `i`.
    pub open spec fn set_value(self, i: int, value: T) -> Self {
        TreeView { values: self.values.update(i, value), ..self }
    }

    /// Node `c` becomes the child of `p` that stands at position `k`.
    pub open spec fn attach(self, p: int, k: int, c: int) -> Self {
        TreeView {
            parents: self.parents.update(c, Some(p)),
            children: self.children.update(p, self.children[p].insert(k, c)),
            ..self
        }
    }

    /// Node `c` leaves its parent, if it has one; its own children stay with
    /// it.
    pub open spec fn detach(self, c: int) -> Self {
        match self.parents[c] {
            Some(p) => TreeView {
                parents: self.parents.update(c, None),
                children: self.children.update(p, self.children[p].remove(self.position(c))),
                ..self
            },
            None => self,
        }
    }

    /// All children of `src` move, in their order, behind the children of
    /// `dst`. With `src == dst`, or a childless `src`, nothing changes.
    pub open spec fn adopt_last(self, dst: int, src: int) -> Self {
        if dst == src || self.children[src].len() == 0 {
            self
        } else {
            TreeView {
                parents: Seq::new(
                    self.parents.len(),
                    |i: int|
                        if self.parents[i] == Some(src) {
                            Some(dst)
                        } else {
                            self.parents[i]
                        },
                ),
                children: self.children.update(src, Seq::empty()).update(
                    dst,
                    self.children[dst] + self.children[src],
                ),
                ..self
            }
        }
    }

    /// All children of `src` move, in their order, before the children of
    /// `dst`. With `src == dst`, or a childless `src`, nothing changes.
    pub open spec fn adopt_first(self, dst: int, src: int) -> Self {
        if dst == src || self.children[src].len() == 0 {
            self
        } else {
            TreeView {
                parents: Seq::new(
                    self.parents.len(),
                    |i: int|
                        if self.parents[i] == Some(src) {
                            Some(dst)
                        } else {
                            self.parents[i]
                        },
                ),
                children: self.children.update(src, Seq::empty()).update(
                    dst,
                    self.children[src] + self.children[dst],
                ),
                ..self
            }
        }
    }

    /// Every node outranks its parent.
    pub open spec fn ranked_by(self, rank: Seq<nat>) -> bool {
        &&& rank.len() == self.parents.len()
        &&& forall|c: int|
            0 <= c < self.parents.len() ==> match #[trigger] self.parents[c] {
                Some(p) => 0 <= p < self.parents.len() && rank[p] < rank[c],
                None => true,
            }
    }

    /// The root hangs under nothing and no node is its own ancestor. Linking
    /// nodes by id can break this; walks that climb or descend without bound
    /// ask for it.
    pub open spec fn is_forest(self) -> bool {
        &&& self.parents.len() >= 1
        &&& self.parents[0] is None
        &&& exists|rank: Seq<nat>| #[trigger] self.ranked_by(rank)
    }

    /// Some ranking of a forest.
    pub open spec fn some_rank(self) -> Seq<nat> {
        choose|rank: Seq<nat>| #[trigger] self.ranked_by(rank)
    }

    /// The node `k` steps up from `i`: `i` itself for `k == 0`.
    pub open spec fn nth_ancestor(self, i: int, k: nat) -> Option<int>
        decreases k,
    {
        if k == 0 {
            Some(i)
        } else {
            match self.parents[i] {
                Some(p) => self.nth_ancestor(p, (k - 1) as nat),
                None => None,
            }
        }
    }

    /// `a` is `i` or one of its ancestors.
    pub open spec fn reaches(self, i: int, a: int) -> bool {
        exists|k: nat| #[trigger] self.nth_ancestor(i, k) == Some(a)
    }

    /// The node that a depth-first walk from `root` enters once it has left
    /// `n`: the next sibling of `n`, or of the nearest ancestor below `root`
    /// that has one. `None` where the walk ends.
    pub open spec fn enters_after(self, root: int, n: int) -> Option<int>
        decreases self.some_rank()[n],
        when self.is_forest() && 0 <= n < self.parents.len()
    {
        if n == root {
            None
        } else {
            match self.next_sibling(n) {
                Some(s) => Some(s),
                None => match self.parents[n] {
                    Some(p) => self.enters_after(root, p),
                    None => None,
                },
            }
        }
    }

    /// The siblings after `i`, nearest first.
    pub open spec fn next_siblings(self, i: int) -> Seq<int> {
        match self.parents[i] {
            Some(p) => self.children[p].skip(self.position(i) + 1),
            None => Seq::empty(),
        }
    }

    /// The siblings before `i`, nearest first.
    pub open spec fn prev_siblings(self, i: int) -> Seq<int> {
        match self.parents[i] {
            Some(p) => self.children[p].take(self.position(i)).reverse(),
            None => Seq::empty(),
        }
    }

    /// The siblings before `i`, nearest first; `i`; and the siblings after `i`,
    /// nearest first.
    pub open spec fn siblings_around(self, i: int) -> Seq<int> {
        self.prev_siblings(i) + seq![i] + self.next_siblings(i)
    }

    /// The node that a depth-first walk from `root` enters after `n`: the first
    /// child of `n`, or else the node that it enters once it has left `n`.
    pub open spec fn walk_next(self, root: int, n: int) -> Option<int> {
        match self.first_child(n) {
            Some(c) => Some(c),
            None => self.enters_after(root, n),
        }
    }

    /// The walk goes from `order[j]` to `order[j + 1]`, or from the last entry
    /// to `tail`.
    pub open spec fn walk_link(
        self,
        root: int,
        order: Seq<int>,
        j: int,
        tail: Option<int>,
    ) -> bool {
        &&& self.has(order[j])
        &&& self.walk_next(root, order[j]) == if j + 1 < order.len() {
            Some(order[j + 1])
        } else {
            tail
        }
    }

    /// `order` is the depth-first walk over the subtree of `root`: the root,
    /// then step by step the node that the walk enters next, to the end.
    pub open spec fn is_walk(self, root: int, order: Seq<int>) -> bool {
        &&& order.len() >= 1
        &&& order[0] == root
        &&& forall|j: int| 0 <= j < order.len() ==> #[trigger] self.walk_link(root, order, j, None)
    }

    /// Same links, whatever the values.
    pub open spec fn same_shape(self, other: Self) -> bool {
        &&& self.values.len() == other.values.len()
        &&& self.parents == other.parents
        &&& self.children == other.children
    }

    /// A new orphan at the end changes nothing for the nodes that were there.
    pub proof fn lemma_push_orphan_keeps(self, value: T, i: int)
        requires
            self.valid(),
            self.has(i),
        ensures
            self.push_orphan(value).parents[i] == self.parents[i],
            self.push_orphan(value).children[i] == self.children[i],
            self.push_orphan(value).is_orphan(self.len() as int),
            self.parents[i] is Some ==> self.push_orphan(value).position(i) == self.position(i),
    {
    }

    /// A node that is reached from its parent is reached from the node, and a
    /// node other than `i` that is reached from `i` is reached from the parent
    /// of `i`.
    pub proof fn lemma_reaches_step(self, i: int, a: int)
        requires
            self.parents[i] is Some,
        ensures
            self.reaches(self.parents[i].unwrap(), a) ==> self.reaches(i, a),
            self.reaches(i, a) && i != a ==> self.reaches(self.parents[i].unwrap(), a),
    {
        let q = self.parents[i].unwrap();
        if self.reaches(q, a) {
            let k = choose|k: nat| #[trigger] self.nth_ancestor(q, k) == Some(a);
            assert(self.nth_ancestor(i, k + 1) == Some(a));
        }
        if self.reaches(i, a) && i != a {
            let k = choose|k: nat| #[trigger] self.nth_ancestor(i, k) == Some(a);
            assert(k != 0);
            assert(self.nth_ancestor(q, (k - 1) as nat) == Some(a));
        }
    }

    /// Every node reaches itself, and an orphan reaches nothing else.
    pub proof fn lemma_reaches_self(self, i: int)
        ensures
            self.reaches(i, i),
            self.parents[i] is None ==> forall|a: int| self.reaches(i, a) ==> a == i,
    {
        assert(self.nth_ancestor(i, 0) == Some(i));
        if self.parents[i] is None {
            assert forall|a: int| self.reaches(i, a) implies a == i by {
                let k = choose|k: nat| #[trigger] self.nth_ancestor(i, k) == Some(a);
                if k != 0 {
                    assert(self.nth_ancestor(i, k) is None);
                }
            }
        }
    }

    /// A node stands among the children of some node exactly when it is not an
    /// orphan, and that node is its parent.
    pub proof fn lemma_child_iff_not_orphan(self, c: int)
        requires
            self.valid(),
            self.has(c),
        ensures
            !self.is_orphan(c) <==> exists|p: int|
                self.has(p) && #[trigger] self.children[p].contains(c),
            forall|p: int|
                self.has(p) && #[trigger] self.children[p].contains(c) ==> self.parents[c]
                    == Some(p),
            self.parents[c] matches Some(p) ==> self.has(p) && self.children[p].contains(c),
    {
        assert forall|p: int|
            self.has(p) && #[trigger] self.children[p].contains(c) implies self.parents[c]
            == Some(p) by {
            let j = choose|j: int| 0 <= j < self.children[p].len() && self.children[p][j] == c;
            assert(self.parents[self.children[p][j]] == Some(p));
        }
        if self.parents[c] is Some {
            let p = self.parents[c].unwrap();
            assert(self.has(p) && self.children[p].contains(c));
        }
    }

    /// Detaching a node a second time changes nothing.
    pub proof fn lemma_detach_twice(self, c: int)
        requires
            self.valid(),
            self.has(c),
        ensures
            self.detach(c).is_orphan(c),
            self.detach(c).detach(c) == self.detach(c),
            self.is_orphan(c) ==> self.detach(c) == self,
    {
    }

    /// What detaching does: the node leaves the child list of its parent, the
    /// other children keep their order, and nothing else changes.
    pub proof fn lemma_detach(self, c: int)
        requires
            self.valid(),
            self.has(c),
            self.parents[c] is Some,
        ensures
            self.detach(c).valid(),
            !self.detach(c).children[self.parents[c].unwrap()].contains(c),
            self.detach(c).children[self.parents[c].unwrap()]
                == self.children[self.parents[c].unwrap()].remove(self.position(c)),
            self.parents[c] != Some(c) ==> self.detach(c).children[c] == self.children[c],
            self.detach(c).values == self.values,
            forall|i: int|
                self.has(i) && i != c ==> #[trigger] self.detach(c).parents[i]
                    == self.parents[i],
            forall|i: int|
                self.has(i) && Some(i) != self.parents[c] ==> #[trigger] self.detach(c).children[i]
                    == self.children[i],
    {
        let p = self.parents[c].unwrap();
        let j = self.position(c);
        let after = self.detach(c);
        self.lemma_child_slot(c);
        let kids = self.children[p];
        let rest = kids.remove(j);
        assert forall|i: int| 0 <= i < rest.len() implies rest[i] != c && rest[i] == kids[if i < j {
            i
        } else {
            i + 1
        }] by {
            if i < j {
                assert(self.children[p][i] != self.children[p][j]);
            } else {
                assert(self.children[p][j] != self.children[p][i + 1]);
            }
        }
        assert forall|q: int, i: int| after.has(q) && 0 <= i < after.children[q].len() implies {
            &&& after.has(#[trigger] after.children[q][i])
            &&& after.parents[after.children[q][i]] == Some(q)
        } by {
            if q == p {
                let i0 = if i < j {
                    i
                } else {
                    i + 1
                };
                assert(after.children[q][i] == self.children[p][i0]);
            } else {
                assert(after.children[q][i] == self.children[q][i]);
            }
        }
        assert forall|q: int, i: int, k: int|
            after.has(q) && 0 <= i < k < after.children[q].len() implies
            #[trigger] after.children[q][i] != #[trigger] after.children[q][k] by {
            if q == p {
                let i0 = if i < j {
                    i
                } else {
                    i + 1
                };
                let k0 = if k < j {
                    k
                } else {
                    k + 1
                };
                assert(self.children[p][i0] != self.children[p][k0]);
            } else {
                assert(self.children[q][i] != self.children[q][k]);
            }
        }
        assert forall|x: int| after.has(x) implies match #[trigger] after.parents[x] {
            Some(q) => after.has(q) && after.children[q].contains(x),
            None => true,
        } by {
            if x != c && self.parents[x] is Some {
                let q = self.parents[x].unwrap();
                assert(self.children[q].contains(x));
                let i = choose|i: int| 0 <= i < self.children[q].len() && self.children[q][i] == x;
                if q == p {
                    let i1 = if i < j {
                        i
                    } else {
                        i - 1
                    };
                    assert(after.children[p][i1] == x);
                } else {
                    assert(after.children[q][i] == x);
                }
            }
        }
        if rest.contains(c) {
            let i = choose|i: int| 0 <= i < rest.len() && rest[i] == c;
            assert(rest[i] != c);
        }
    }

    /// What moving the children of `src` behind those of `dst` does: `dst` has
    /// its own children and then all those of `src`, in their order; every
    /// moved child has `dst` as its parent; `src` has no children; and no other
    /// node changes.
    pub proof fn lemma_adopt_last(self, dst: int, src: int)
        requires
            self.valid(),
            self.has(dst),
            self.has(src),
            dst != src,
        ensures
            self.adopt_last(dst, src).children[dst] == self.children[dst] + self.children[src],
            self.adopt_last(dst, src).children[src].len() == 0,
            forall|j: int|
                0 <= j < self.children[src].len() ==> self.adopt_last(dst, src).parents[
                #[trigger] self.children[src][j]] == Some(dst),
            forall|i: int|
                self.has(i) && !self.children[src].contains(i) ==> #[trigger] self.adopt_last(
                    dst,
                    src,
                ).parents[i] == self.parents[i],
            forall|i: int|
                self.has(i) && i != dst && i != src ==> #[trigger] self.adopt_last(
                    dst,
                    src,
                ).children[i] == self.children[i],
            self.adopt_last(dst, src).values == self.values,
    {
        let after = self.adopt_last(dst, src);
        if self.children[src].len() == 0 {
            assert(self.children[dst] + self.children[src] =~= self.children[dst]);
        }
        assert forall|i: int|
            self.has(i) && !self.children[src].contains(i) implies
            #[trigger] after.parents[i] == self.parents[i] by {
            if self.parents[i] == Some(src) {
                assert(self.children[src].contains(i));
            }
        }
    }

    /// What moving the children of `src` before those of `dst` does: `dst` has
    /// all children of `src`, in their order, and then its own; every moved
    /// child has `dst` as its parent; `src` has no children; and no other node
    /// changes.
    pub proof fn lemma_adopt_first(self, dst: int, src: int)
        requires
            self.valid(),
            self.has(dst),
            self.has(src),
            dst != src,
        ensures
            self.adopt_first(dst, src).children[dst] == self.children[src] + self.children[dst],
            self.adopt_first(dst, src).children[src].len() == 0,
            forall|j: int|
                0 <= j < self.children[src].len() ==> self.adopt_first(dst, src).parents[
                #[trigger] self.children[src][j]] == Some(dst),
            forall|i: int|
                self.has(i) && !self.children[src].contains(i) ==> #[trigger] self.adopt_first(
                    dst,
                    src,
                ).parents[i] == self.parents[i],
            forall|i: int|
                self.has(i) && i != dst && i != src ==> #[trigger] self.adopt_first(
                    dst,
                    src,
                ).children[i] == self.children[i],
            self.adopt_first(dst, src).values == self.values,
    {
        let after = self.adopt_first(dst, src);
        if self.children[src].len() == 0 {
            assert(self.children[src] + self.children[dst] =~= self.children[dst]);
        }
        assert forall|i: int|
            self.has(i) && !self.children[src].contains(i) implies
            #[trigger] after.parents[i] == self.parents[i] by {
            if self.parents[i] == Some(src) {
                assert(self.children[src].contains(i));
            }
        }
    }

    /// What linking does: the node stands at position `k` among the children of
    /// `p`, the children that were there keep their order around it, and
    /// nothing else changes.
    pub proof fn lemma_attach(self, p: int, k: int, c: int)
        requires
            self.valid(),
            self.has(p),
            self.has(c),
            self.is_orphan(c),
            0 <= k <= self.children[p].len(),
        ensures
            self.attach(p, k, c).parents[c] == Some(p),
            self.attach(p, k, c).children[p] == self.children[p].insert(k, c),
            self.attach(p, k, c).children[p][k] == c,
            self.attach(p, k, c).position(c) == k,
            forall|i: int|
                self.has(i) && i != c ==> #[trigger] self.attach(p, k, c).parents[i]
                    == self.parents[i],
            forall|i: int|
                self.has(i) && i != p ==> #[trigger] self.attach(p, k, c).children[i]
                    == self.children[i],
            self.attach(p, k, c).values == self.values,
    {
        let after = self.attach(p, k, c);
        let more = self.children[p].insert(k, c);
        assert(more[k] == c);
        assert(more.contains(c));
        let at = more.index_of(c);
        if at != k {
            let i0 = if at < k {
                at
            } else {
                at - 1
            };
            assert(more[at] == self.children[p][i0]);
            assert(self.parents[self.children[p][i0]] == Some(p));
        }
    }

    /// Whether a tree is a forest depends on its parents alone.
    pub proof fn lemma_forest_by_parents(self, other: Self)
        requires
            self.parents == other.parents,
        ensures
            self.is_forest() == other.is_forest(),
    {
        if self.is_forest() {
            assert(other.ranked_by(self.some_rank()));
        }
        if other.is_forest() {
            assert(self.ranked_by(other.some_rank()));
        }
    }

    /// Where a walk goes depends on the links alone.
    pub proof fn lemma_enters_after_by_shape(self, other: Self, root: int, n: int)
        requires
            self.is_forest(),
            0 <= n < self.parents.len(),
            self.parents == other.parents,
            self.children == other.children,
        ensures
            other.enters_after(root, n) == self.enters_after(root, n),
            other.walk_next(root, n) == self.walk_next(root, n),
        decreases self.some_rank()[n],
    {
        self.lemma_forest_by_parents(other);
        assert(self.ranked_by(self.some_rank()));
        if n != root && self.next_sibling(n) is None {
            match self.parents[n] {
                Some(p) => {
                    self.lemma_enters_after_by_shape(other, root, p);
                },
                None => {},
            }
        }
    }

    /// A new orphan leaves a forest a forest.
    pub proof fn lemma_push_orphan_forest(self, value: T)
        requires
            self.is_forest(),
            self.parents.len() == self.values.len(),
            self.children.len() == self.values.len(),
        ensures
            self.push_orphan(value).is_forest(),
    {
        let rank = self.some_rank();
        let after = self.push_orphan(value);
        assert(after.ranked_by(rank.push(0)));
    }

    /// A new node linked under a node of a forest leaves a forest.
    pub proof fn lemma_grow_forest(self, value: T, p: int, k: int)
        requires
            self.valid(),
            self.is_forest(),
            self.has(p),
        ensures
            self.push_orphan(value).attach(p, k, self.len() as int).is_forest(),
    {
        let grown = self.push_orphan(value);
        let c = self.len() as int;
        self.lemma_push_orphan_forest(value);
        if grown.reaches(p, c) {
            let n = choose|n: nat| #[trigger] grown.nth_ancestor(p, n) == Some(c);
            self.lemma_climb_stays(value, p, n);
        }
        grown.lemma_attach_forest(p, k, c);
    }

    /// Climbing from a node that was there before a new orphan came never
    /// arrives at the new orphan.
    pub proof fn lemma_climb_stays(self, value: T, i: int, n: nat)
        requires
            self.valid(),
            self.has(i),
        ensures
            self.push_orphan(value).nth_ancestor(i, n) matches Some(a) ==> self.has(a),
        decreases n,
    {
        if n > 0 {
            match self.parents[i] {
                Some(q) => {
                    self.lemma_climb_stays(value, q, (n - 1) as nat);
                },
                None => {},
            }
        }
    }

    /// The tree that holds the root alone is a forest.
    pub proof fn lemma_single_forest(root: T)
        ensures
            Self::single(root).is_forest(),
            Self::single(root).valid(),
    {
        let rank: Seq<nat> = seq![0nat];
        assert(Self::single(root).ranked_by(rank));
    }

    /// Taking a node out of its parent's list leaves a forest a forest.
    pub proof fn lemma_detach_forest(self, c: int)
        requires
            self.is_forest(),
            0 <= c < self.parents.len(),
        ensures
            self.detach(c).is_forest(),
    {
        let rank = self.some_rank();
        assert(self.detach(c).ranked_by(rank));
    }

    /// Linking an orphan under a node leaves a forest a forest, unless the
    /// orphan is the root or the node hangs under the orphan.
    pub proof fn lemma_attach_forest(self, p: int, k: int, c: int)
        requires
            self.is_forest(),
            0 <= p < self.parents.len(),
            0 <= c < self.parents.len(),
            self.parents[c] is None,
            c != 0,
            !self.reaches(p, c),
        ensures
            self.attach(p, k, c).is_forest(),
    {
        let rank = self.some_rank();
        let after = self.attach(p, k, c);
        let shift = rank[p] + 1;
        let lifted = Seq::new(
            rank.len(),
            |i: int|
                if self.reaches(i, c) {
                    (rank[i] + shift) as nat
                } else {
                    rank[i]
                },
        );
        self.lemma_reaches_self(c);
        assert forall|x: int| 0 <= x < after.parents.len() implies match
        #[trigger] after.parents[x] {
            Some(q) => 0 <= q < after.parents.len() && lifted[q] < lifted[x],
            None => true,
        } by {
            if x != c {
                assert(after.parents[x] == self.parents[x]);
                if self.parents[x] is Some {
                    self.lemma_reaches_step(x, c);
                }
            }
        }
        assert(after.ranked_by(lifted));
    }

    /// Handing the children of `src` to `dst` leaves a forest a forest, unless
    /// `dst` hangs under `src`.
    pub proof fn lemma_adopt_forest(self, dst: int, src: int)
        requires
            self.is_forest(),
            0 <= dst < self.parents.len(),
            0 <= src < self.parents.len(),
            dst == src || !self.reaches(dst, src),
        ensures
            self.adopt_last(dst, src).is_forest(),
            self.adopt_first(dst, src).is_forest(),
            self.adopt_first(dst, src).parents == self.adopt_last(dst, src).parents,
    {
        let rank = self.some_rank();
        let after = self.adopt_last(dst, src);
        if dst != src && self.children[src].len() > 0 {
            let shift = rank[dst] + 1;
            let lifted = Seq::new(
                rank.len(),
                |i: int|
                    if self.parents[i] is Some && self.reaches(self.parents[i].unwrap(), src) {
                        (rank[i] + shift) as nat
                    } else {
                        rank[i]
                    },
            );
            self.lemma_reaches_self(src);
            if self.parents[dst] is Some {
                self.lemma_reaches_step(dst, src);
            }
            assert forall|x: int| 0 <= x < after.parents.len() implies match
            #[trigger] after.parents[x] {
                Some(q) => 0 <= q < after.parents.len() && lifted[q] < lifted[x],
                None => true,
            } by {
                if self.parents[x] is Some {
                    let q = self.parents[x].unwrap();
                    if q != src {
                        assert(after.parents[x] == Some(q));
                        if self.parents[q] is Some {
                            self.lemma_reaches_step(q, src);
                        } else {
                            self.lemma_reaches_self(q);
                        }
                    } else {
                        assert(after.parents[x] == Some(dst));
                    }
                }
            }
            assert(after.ranked_by(lifted));
            assert(self.adopt_first(dst, src).ranked_by(lifted));
        } else {
            assert(after.ranked_by(rank));
        }
    }

    /// A node has fewer children than the tree has nodes.
    pub proof fn lemma_children_bound(self, p: int)
        requires
            self.valid(),
            self.has(p),
        ensures
            self.children[p].len() <= self.len(),
    {
        let kids = self.children[p];
        assert forall|j: int| 0 <= j < kids.len() implies 0 <= #[trigger] kids[j] < self.len() by {
            assert(self.has(self.children[p][j]));
        }
        assert forall|j: int, k: int| 0 <= j < k < kids.len() implies #[trigger] kids[j]
            != #[trigger] kids[k] by {
            assert(self.children[p][j] != self.children[p][k]);
        }
        lemma_distinct_bound(kids, self.len() as int);
    }

    /// In a valid tree a child stands where `position` says.
    pub proof fn lemma_position(self, p: int, j: int)
        requires
            self.valid(),
            self.has(p),
            0 <= j < self.children[p].len(),
        ensures
            self.position(self.children[p][j]) == j,
    {
        let c = self.children[p][j];
        let k = self.children[p].index_of(c);
        assert(self.children[p].contains(c));
        if k < j {
            assert(self.children[p][k] != self.children[p][j]);
        } else if j < k {
            assert(self.children[p][j] != self.children[p][k]);
        }
    }

    /// A node that has a parent is found in that parent's child list, at
    /// `position`.
    pub proof fn lemma_child_slot(self, c: int)
        requires
            self.valid(),
            self.has(c),
            self.parents[c] is Some,
        ensures
            self.has(self.parents[c].unwrap()),
            0 <= self.position(c) < self.children[self.parents[c].unwrap()].len(),
            self.children[self.parents[c].unwrap()][self.position(c)] == c,
    {
        let p = self.parents[c].unwrap();
        assert(self.children[p].contains(c));
    }
}

/// A sequence of distinct numbers below `n` has at most `n` entries.
pub proof fn lemma_distinct_bound(s: Seq<int>, n: int)
    requires
        0 <= n,
        forall|j: int| 0 <= j < s.len() ==> 0 <= #[trigger] s[j] < n,
        forall|j: int, k: int| 0 <= j < k < s.len() ==> #[trigger] s[j] != #[trigger] s[k],
    ensures
        s.len() <= n,
    decreases n,
{
    if s.len() > 0 {
        if n == 0 {
            assert(0 <= s[0] < n);
        } else {
            // Drop the entry that equals n - 1, if there is one.
            if exists|j: int| 0 <= j < s.len() && s[j] == n - 1 {
                let j = choose|j: int| 0 <= j < s.len() && s[j] == n - 1;
                let t = s.remove(j);
                assert forall|i: int| 0 <= i < t.len() implies 0 <= #[trigger] t[i] < n - 1 by {
                    let i0 = if i < j {
                        i
                    } else {
                        i + 1
                    };
                    assert(t[i] == s[i0]);
                    if i0 < j {
                        assert(s[i0] != s[j]);
                    } else {
                        assert(s[j] != s[i0]);
                    }
                }
                assert forall|i: int, k: int| 0 <= i < k < t.len() implies #[trigger] t[i]
                    != #[trigger] t[k] by {
                    let i0 = if i < j {
                        i
                    } else {
                        i + 1
                    };
                    let k0 = if k < j {
                        k
                    } else {
                        k + 1
                    };
                    assert(s[i0] != s[k0]);
                }
                lemma_distinct_bound(t, n - 1);
            } else {
                assert forall|i: int| 0 <= i < s.len() implies 0 <= #[trigger] s[i] < n - 1 by {}
                lemma_distinct_bound(s, n - 1);
            }
        }
    }
}

} // verus!
