//! Why a depth-first walk over a forest comes to an end: every step leaves
//! fewer nodes to walk.

use vstd::prelude::*;
use crate::model::TreeView;

verus! {

/// A number above every entry.
pub open spec fn top_of(s: Seq<nat>) -> nat
    decreases s.len(),
{
    if s.len() == 0 {
        0
    } else if top_of(s.drop_last()) > s.last() {
        top_of(s.drop_last())
    } else {
        s.last() + 1
    }
}

/// `top_of` is above every entry.
pub proof fn lemma_top_of(s: Seq<nat>, i: int)
    requires
        0 <= i < s.len(),
    ensures
        s[i] < top_of(s),
    decreases s.len(),
{
    if i < s.len() - 1 {
        lemma_top_of(s.drop_last(), i);
    }
}

impl<T> TreeView<T> {
    /// How far the rank of `i` is below the top: it bounds the height of the
    /// subtree of `i`.
    pub open spec fn room(self, i: int) -> nat {
        (top_of(self.some_rank()) - self.some_rank()[i]) as nat
    }

    /// The number of nodes in the subtrees of the children of `p` at the
    /// positions from `from` up to, not including, `to`.
    pub open spec fn span(self, p: int, from: int, to: int) -> nat
        decreases self.room(p), to - from,
        when self.valid() && self.is_forest() && self.has(p) && 0 <= from && to
            <= self.children[p].len()
        via Self::span_decreases
    {
        if from >= to {
            0
        } else {
            let c = self.children[p][to - 1];
            self.span(p, from, to - 1) + 1 + self.span(c, 0, self.children[c].len() as int)
        }
    }

    #[via_fn]
    proof fn span_decreases(self, p: int, from: int, to: int) {
        if from < to {
            let c = self.children[p][to - 1];
            self.lemma_room(c);
        }
    }

    /// A child has less room than its parent.
    pub proof fn lemma_room(self, c: int)
        requires
            self.valid(),
            self.is_forest(),
            self.has(c),
        ensures
            self.room(c) > 0,
            self.parents[c] matches Some(p) ==> self.has(p) && self.room(c) < self.room(p),
    {
        let rank = self.some_rank();
        assert(self.ranked_by(rank));
        lemma_top_of(rank, c);
        if self.parents[c] is Some {
            lemma_top_of(rank, self.parents[c].unwrap());
        }
    }

    /// The number of nodes in the subtree of `i`.
    pub open spec fn size(self, i: int) -> nat {
        1 + self.span(i, 0, self.children[i].len() as int)
    }

    /// The number of nodes that a walk from `root` enters after it has left
    /// `n`.
    pub open spec fn later(self, root: int, n: int) -> nat
        decreases self.some_rank()[n],
        when self.valid() && self.is_forest() && self.has(n)
    {
        if n == root {
            0
        } else {
            match self.parents[n] {
                Some(p) => self.span(p, self.position(n) + 1, self.children[p].len() as int)
                    + self.later(root, p),
                None => 0,
            }
        }
    }

    /// The number of nodes that a walk from `root` enters after it has entered
    /// `n`.
    pub open spec fn ahead(self, root: int, n: int) -> nat {
        (self.size(n) - 1 + self.later(root, n)) as nat
    }

    /// A span is the sum of its two parts.
    pub proof fn lemma_span_split(self, p: int, from: int, mid: int, to: int)
        requires
            self.valid(),
            self.is_forest(),
            self.has(p),
            0 <= from <= mid <= to <= self.children[p].len(),
        ensures
            self.span(p, from, to) == self.span(p, from, mid) + self.span(p, mid, to),
        decreases to - mid,
    {
        if mid < to {
            self.lemma_span_split(p, from, mid, to - 1);
        }
    }

    /// The span of one child is the size of its subtree.
    pub proof fn lemma_span_one(self, p: int, j: int)
        requires
            self.valid(),
            self.is_forest(),
            self.has(p),
            0 <= j < self.children[p].len(),
        ensures
            self.span(p, j, j + 1) == self.size(self.children[p][j]),
    {
        assert(self.span(p, j, j) == 0);
    }

    /// A node that hangs under another node ranks above it.
    pub proof fn lemma_reaches_rank(self, i: int, a: int, k: nat)
        requires
            self.is_forest(),
            0 <= i < self.parents.len(),
            self.nth_ancestor(i, k) == Some(a),
        ensures
            0 <= a < self.parents.len(),
            self.some_rank()[a] + k <= self.some_rank()[i],
        decreases k,
    {
        let rank = self.some_rank();
        assert(self.ranked_by(rank));
        if k > 0 {
            let q = self.parents[i].unwrap();
            self.lemma_reaches_rank(q, a, (k - 1) as nat);
        }
    }

    /// The first child of a node under `root` is under `root`, is not `root`,
    /// and has one node less ahead of it.
    pub proof fn lemma_walk_down(self, root: int, n: int)
        requires
            self.valid(),
            self.is_forest(),
            self.has(n),
            self.reaches(n, root),
            self.children[n].len() > 0,
        ensures
            self.reaches(self.children[n][0], root),
            self.ahead(root, self.children[n][0]) + 1 == self.ahead(root, n),
    {
        let c = self.children[n][0];
        let len = self.children[n].len() as int;
        assert(self.parents[self.children[n][0]] == Some(n));
        self.lemma_reaches_step(c, root);
        self.lemma_position(n, 0);
        if c == root {
            let k = choose|k: nat| #[trigger] self.nth_ancestor(n, k) == Some(root);
            self.lemma_reaches_rank(n, root, k);
            assert(self.ranked_by(self.some_rank()));
        }
        self.lemma_span_split(n, 0, 1, len);
        self.lemma_span_one(n, 0);
    }

    /// The node that the walk enters after it has left a node under `root` is
    /// under `root` and has one node less ahead of it than that node had behind
    /// its subtree.
    pub proof fn lemma_walk_over(self, root: int, n: int)
        requires
            self.valid(),
            self.is_forest(),
            self.has(n),
            self.reaches(n, root),
        ensures
            match self.enters_after(root, n) {
                Some(s) => self.has(s) && self.reaches(s, root) && self.ahead(root, s) + 1
                    == self.later(root, n),
                None => true,
            },
        decreases self.some_rank()[n],
    {
        let rank = self.some_rank();
        assert(self.ranked_by(rank));
        if n != root {
            match self.parents[n] {
                Some(p) => {
                    self.lemma_child_slot(n);
                    self.lemma_reaches_step(n, root);
                    let at = self.position(n);
                    let len = self.children[p].len() as int;
                    if at + 1 < len {
                        let s = self.children[p][at + 1];
                        assert(self.parents[self.children[p][at + 1]] == Some(p));
                        self.lemma_position(p, at + 1);
                        self.lemma_reaches_step(s, root);
                        if s == root {
                            let k = choose|k: nat| #[trigger] self.nth_ancestor(p, k) == Some(root);
                            self.lemma_reaches_rank(p, root, k);
                        }
                        self.lemma_span_split(p, at + 1, at + 2, len);
                        self.lemma_span_one(p, at + 1);
                    } else {
                        assert(self.span(p, at + 1, len) == 0);
                        self.lemma_walk_over(root, p);
                    }
                },
                None => {},
            }
        }
    }

    /// Where the walk ends no node is left to enter.
    pub proof fn lemma_walk_end(self, root: int, n: int)
        requires
            self.valid(),
            self.is_forest(),
            self.has(n),
            self.enters_after(root, n) is None,
        ensures
            self.later(root, n) == 0,
        decreases self.some_rank()[n],
    {
        let rank = self.some_rank();
        assert(self.ranked_by(rank));
        if n != root {
            match self.parents[n] {
                Some(p) => {
                    self.lemma_child_slot(n);
                    let at = self.position(n);
                    let len = self.children[p].len() as int;
                    assert(at + 1 == len);
                    assert(self.span(p, at + 1, len) == 0);
                    self.lemma_walk_end(root, p);
                },
                None => {},
            }
        }
    }
}

} // verus!
