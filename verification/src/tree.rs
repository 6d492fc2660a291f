//! The arena, its ids, and the link surgery on node indices.

use vstd::prelude::*;
use vstd::std_specs::cmp::{PartialEqSpec, PartialEqSpecImpl};
use crate::model::{as_index, TreeView};
use crate::node_mut::NodeMut;
use crate::node_ref::NodeRef;

verus! {

/// One slot of the arena: a value and its links to other slots.
#[derive(Debug)]
struct Node<T> {
    parent: Option<usize>,
    prev_sibling: Option<usize>,
    next_sibling: Option<usize>,
    /// The first and the last child.
    children: Option<(usize, usize)>,
    value: T,
}

/// A tree stored in one growable arena.
///
/// Slot 0 is the root. Slots are never removed: a node that is detached keeps
/// its slot, its value and its id.
#[derive(Debug)]
pub struct Tree<T> {
    /// The tag on every id that this tree makes: the address of `anchor`.
    owner: usize,
    /// A heap cell that belongs to this tree alone. While the tree lives no
    /// other tree has a cell at this address, so no other living tree has this
    /// tag. A clone gets a cell of its own.
    anchor: Box<u8>,
    /// The slots, in creation order.
    vec: Vec<Node<T>>,
}

/// The name of a node: the tag of the tree that made it, and its slot.
///
/// An id borrows nothing. It means something only to the tree whose tag it
/// carries.
#[derive(Clone, Copy, PartialEq, Eq, Structural, Hash, Debug)]
pub struct NodeId {
    owner: usize,
    index: usize,
}

impl NodeId {
    /// The tag of the tree that made this id.
    pub closed spec fn owner(self) -> usize {
        self.owner
    }

    /// The slot that this id names.
    pub closed spec fn index(self) -> int {
        self.index as int
    }

    /// The slot that this id names.
    pub(crate) fn slot(self) -> (i: usize)
        ensures
            i == self.index(),
    {
        self.index
    }
}

/// Calls `std::ptr::from_ref` on the heap cell that a tree owns and hands the
/// address back as a number. Nothing is claimed of the number: that no other
/// cell has it while this one lives is not told to Verus, and no proof rests on
/// it.
#[verifier::external_body]
fn address_of(cell: &Box<u8>) -> (a: usize) {
    std::ptr::from_ref::<u8>(&**cell) as usize
}

impl<T> Node<T> {
    fn new(value: T) -> (node: Self)
        ensures
            node.parent is None,
            node.prev_sibling is None,
            node.next_sibling is None,
            node.children is None,
            node.value == value,
    {
        Node { parent: None, prev_sibling: None, next_sibling: None, children: None, value }
    }
}

/// The child at position `j` of `p` is linked to `p` and to its neighbours.
spec fn child_linked<T>(nodes: Seq<Node<T>>, kids: Seq<Seq<int>>, p: int, j: int) -> bool {
    let c = kids[p][j];
    &&& 0 <= c < nodes.len()
    &&& as_index(nodes[c].parent) == Some(p)
    &&& as_index(nodes[c].prev_sibling) == if j == 0 {
        None
    } else {
        Some(kids[p][j - 1])
    }
    &&& as_index(nodes[c].next_sibling) == if j + 1 == kids[p].len() {
        None
    } else {
        Some(kids[p][j + 1])
    }
}

/// Slot `p` names the first and the last of its children.
spec fn ends_linked<T>(nodes: Seq<Node<T>>, kids: Seq<Seq<int>>, p: int) -> bool {
    nodes[p].children == if kids[p].len() == 0 {
        None
    } else {
        Some((kids[p].first() as usize, kids[p].last() as usize))
    }
}

/// Slot `c` is listed by its parent, or has neither parent nor siblings.
spec fn parent_linked<T>(nodes: Seq<Node<T>>, kids: Seq<Seq<int>>, c: int) -> bool {
    match nodes[c].parent {
        Some(p) => p < nodes.len() && exists|j: int|
            0 <= j < kids[p as int].len() && kids[p as int][j] == c,
        None => nodes[c].prev_sibling is None && nodes[c].next_sibling is None,
    }
}

/// The stored links spell out the child lists `kids`.
spec fn spelled<T>(nodes: Seq<Node<T>>, kids: Seq<Seq<int>>) -> bool {
    &&& kids.len() == nodes.len()
    &&& nodes.len() <= usize::MAX
    &&& forall|p: int, j: int|
        0 <= p < nodes.len() && 0 <= j < kids[p].len() ==> #[trigger] child_linked(
            nodes,
            kids,
            p,
            j,
        )
    &&& forall|p: int, j: int, k: int|
        0 <= p < nodes.len() && 0 <= j < k < kids[p].len() ==> #[trigger] kids[p][j]
            != #[trigger] kids[p][k]
    &&& forall|p: int| 0 <= p < nodes.len() ==> #[trigger] ends_linked(nodes, kids, p)
    &&& forall|c: int| 0 <= c < nodes.len() ==> #[trigger] parent_linked(nodes, kids, c)
}

/// The links spell out at most one family of child lists.
proof fn lemma_spelled_once<T>(nodes: Seq<Node<T>>, a: Seq<Seq<int>>, b: Seq<Seq<int>>)
    requires
        spelled(nodes, a),
        spelled(nodes, b),
    ensures
        a == b,
{
    assert forall|p: int| 0 <= p < a.len() implies a[p] == b[p] by {
        lemma_same_prefix(nodes, a, b, p, a[p].len() as int);
        lemma_same_prefix(nodes, b, a, p, b[p].len() as int);
        assert(ends_linked(nodes, a, p));
        assert(ends_linked(nodes, b, p));
        if a[p].len() < b[p].len() {
            if a[p].len() > 0 {
                let j = a[p].len() - 1;
                assert(a[p][j] == b[p][j]);
                assert(child_linked(nodes, a, p, j));
                assert(child_linked(nodes, b, p, j));
            }
        } else if b[p].len() < a[p].len() {
            if b[p].len() > 0 {
                let j = b[p].len() - 1;
                assert(b[p][j] == a[p][j]);
                assert(child_linked(nodes, a, p, j));
                assert(child_linked(nodes, b, p, j));
            }
        }
        assert(a[p] =~= b[p]);
    }
    assert(a =~= b);
}

/// Two families that the same links spell out agree on the first `n` children
/// of `p`, as far as both reach.
proof fn lemma_same_prefix<T>(
    nodes: Seq<Node<T>>,
    a: Seq<Seq<int>>,
    b: Seq<Seq<int>>,
    p: int,
    n: int,
)
    requires
        spelled(nodes, a),
        spelled(nodes, b),
        0 <= p < nodes.len(),
        0 <= n <= a[p].len(),
    ensures
        forall|j: int| 0 <= j < n && j < b[p].len() ==> a[p][j] == b[p][j],
    decreases n,
{
    if n > 0 {
        lemma_same_prefix(nodes, a, b, p, n - 1);
        let j = n - 1;
        if j < b[p].len() {
            if j == 0 {
                assert(ends_linked(nodes, a, p));
                assert(ends_linked(nodes, b, p));
                assert(child_linked(nodes, a, p, 0));
                assert(child_linked(nodes, b, p, 0));
            } else {
                assert(a[p][j - 1] == b[p][j - 1]);
                assert(child_linked(nodes, a, p, j - 1));
                assert(child_linked(nodes, b, p, j - 1));
            }
        }
    }
}

/// Taking the child at position `j` out of the list of `p` and clearing its
/// links leaves links that spell out the shorter list.
proof fn lemma_unlinked<T>(
    old_nodes: Seq<Node<T>>,
    nodes: Seq<Node<T>>,
    kids: Seq<Seq<int>>,
    p: int,
    j: int,
)
    requires
        spelled(old_nodes, kids),
        0 <= p < old_nodes.len(),
        0 <= j < kids[p].len(),
        nodes.len() == old_nodes.len(),
        ({
            let c = kids[p][j];
            let m = kids[p].len();
            let rest = kids[p].remove(j);
            &&& nodes[c].parent is None
            &&& nodes[c].prev_sibling is None
            &&& nodes[c].next_sibling is None
            &&& forall|i: int|
                0 <= i < nodes.len() && i != c ==> (#[trigger] nodes[i]).parent
                    == old_nodes[i].parent
            &&& forall|i: int|
                0 <= i < nodes.len() && i != c && !(j + 1 < m && i == kids[p][j + 1]) ==> (
                #[trigger] nodes[i]).prev_sibling == old_nodes[i].prev_sibling
            &&& forall|i: int|
                0 <= i < nodes.len() && i != c && !(j > 0 && i == kids[p][j - 1]) ==> (
                #[trigger] nodes[i]).next_sibling == old_nodes[i].next_sibling
            &&& forall|i: int|
                0 <= i < nodes.len() && i != p ==> (#[trigger] nodes[i]).children
                    == old_nodes[i].children
            &&& j + 1 < m ==> nodes[kids[p][j + 1]].prev_sibling == old_nodes[c].prev_sibling
            &&& j > 0 ==> nodes[kids[p][j - 1]].next_sibling == old_nodes[c].next_sibling
            &&& nodes[p].children == if m == 1 {
                None
            } else {
                Some((rest.first() as usize, rest.last() as usize))
            }
        }),
    ensures
        spelled(nodes, kids.update(p, kids[p].remove(j))),
{
    let c = kids[p][j];
    let m = kids[p].len();
    let rest = kids[p].remove(j);
    let after = kids.update(p, rest);
    assert(child_linked(old_nodes, kids, p, j));
    if j > 0 {
        assert(child_linked(old_nodes, kids, p, j - 1));
    }
    if j + 1 < m {
        assert(child_linked(old_nodes, kids, p, j + 1));
    }
    assert forall|q: int, i: int| 0 <= q < nodes.len() && 0 <= i < after[q].len() implies
        #[trigger] child_linked(nodes, after, q, i) by {
        if q == p {
            let i0 = if i < j {
                i
            } else {
                i + 1
            };
            assert(after[q][i] == kids[p][i0]);
            assert(child_linked(old_nodes, kids, p, i0));
            assert(kids[p][i0] != kids[p][j]);
            if i0 > 0 {
                assert(child_linked(old_nodes, kids, p, i0 - 1));
            }
            if i0 + 1 < m {
                assert(child_linked(old_nodes, kids, p, i0 + 1));
            }
            if j + 1 < m && i0 != j + 1 {
                assert(kids[p][i0] != kids[p][j + 1]);
            }
            if j > 0 && i0 != j - 1 {
                assert(kids[p][i0] != kids[p][j - 1]);
            }
        } else {
            assert(after[q][i] == kids[q][i]);
            assert(child_linked(old_nodes, kids, q, i));
        }
    }
    assert forall|q: int, i: int, k: int| 0 <= q < nodes.len() && 0 <= i < k < after[q].len()
        implies #[trigger] after[q][i] != #[trigger] after[q][k] by {
        if q == p {
            let i0 = if i < j {
                i
            } else {
                i + 1
            };
            let k0 = if k < j {
                k
            } else {
                k + 1
            };
            assert(kids[p][i0] != kids[p][k0]);
        } else {
            assert(kids[q][i] != kids[q][k]);
        }
    }
    assert forall|q: int| 0 <= q < nodes.len() implies #[trigger] ends_linked(nodes, after, q) by {
        assert(ends_linked(old_nodes, kids, q));
    }
    assert forall|x: int| 0 <= x < nodes.len() implies #[trigger] parent_linked(
        nodes,
        after,
        x,
    ) by {
        assert(parent_linked(old_nodes, kids, x));
        if x != c {
            match old_nodes[x].parent {
                Some(q) => {
                    let i = choose|i: int| 0 <= i < kids[q as int].len() && kids[q as int][i] == x;
                    if q as int == p {
                        let i1 = if i < j {
                            i
                        } else {
                            i - 1
                        };
                        assert(after[p][i1] == x);
                    } else {
                        assert(after[q as int][i] == x);
                    }
                },
                None => {},
            }
        }
    }
}

/// Putting the orphan `c` at position `k` of the list of `p` and linking it to
/// its neighbours leaves links that spell out the longer list.
proof fn lemma_linked<T>(
    old_nodes: Seq<Node<T>>,
    nodes: Seq<Node<T>>,
    kids: Seq<Seq<int>>,
    p: int,
    k: int,
    c: int,
)
    requires
        spelled(old_nodes, kids),
        0 <= p < old_nodes.len(),
        0 <= c < old_nodes.len(),
        old_nodes[c].parent is None,
        0 <= k <= kids[p].len(),
        nodes.len() == old_nodes.len(),
        ({
            let m = kids[p].len();
            let more = kids[p].insert(k, c);
            &&& as_index(nodes[c].parent) == Some(p)
            &&& as_index(nodes[c].prev_sibling) == if k == 0 {
                None
            } else {
                Some(kids[p][k - 1])
            }
            &&& as_index(nodes[c].next_sibling) == if k == m {
                None
            } else {
                Some(kids[p][k])
            }
            &&& forall|i: int|
                0 <= i < nodes.len() && i != c ==> (#[trigger] nodes[i]).parent
                    == old_nodes[i].parent
            &&& forall|i: int|
                0 <= i < nodes.len() && i != c && !(k < m && i == kids[p][k]) ==> (
                #[trigger] nodes[i]).prev_sibling == old_nodes[i].prev_sibling
            &&& forall|i: int|
                0 <= i < nodes.len() && i != c && !(k > 0 && i == kids[p][k - 1]) ==> (
                #[trigger] nodes[i]).next_sibling == old_nodes[i].next_sibling
            &&& forall|i: int|
                0 <= i < nodes.len() && i != p ==> (#[trigger] nodes[i]).children
                    == old_nodes[i].children
            &&& k < m ==> as_index(nodes[kids[p][k]].prev_sibling) == Some(c)
            &&& k > 0 ==> as_index(nodes[kids[p][k - 1]].next_sibling) == Some(c)
            &&& nodes[p].children == Some((more.first() as usize, more.last() as usize))
        }),
    ensures
        spelled(nodes, kids.update(p, kids[p].insert(k, c))),
{
    let m = kids[p].len();
    let more = kids[p].insert(k, c);
    let after = kids.update(p, more);
    assert(parent_linked(old_nodes, kids, c));
    assert forall|q: int, i: int| 0 <= q < nodes.len() && 0 <= i < kids[q].len() implies kids[q][i]
        != c by {
        assert(child_linked(old_nodes, kids, q, i));
    }
    if k > 0 {
        assert(child_linked(old_nodes, kids, p, k - 1));
    }
    if k < m {
        assert(child_linked(old_nodes, kids, p, k));
    }
    assert forall|q: int, i: int| 0 <= q < nodes.len() && 0 <= i < after[q].len() implies
        #[trigger] child_linked(nodes, after, q, i) by {
        if q == p {
            if i == k {
                assert(after[q][i] == c);
            } else {
                let i0 = if i < k {
                    i
                } else {
                    i - 1
                };
                assert(after[q][i] == kids[p][i0]);
                assert(child_linked(old_nodes, kids, p, i0));
                if k < m && i0 != k {
                    assert(kids[p][i0] != kids[p][k]);
                }
                if k > 0 && i0 != k - 1 {
                    assert(kids[p][i0] != kids[p][k - 1]);
                }
            }
        } else {
            assert(after[q][i] == kids[q][i]);
            assert(child_linked(old_nodes, kids, q, i));
        }
    }
    assert forall|q: int, i: int, l: int| 0 <= q < nodes.len() && 0 <= i < l < after[q].len()
        implies #[trigger] after[q][i] != #[trigger] after[q][l] by {
        if q == p {
            let i0 = if i < k {
                i
            } else {
                i - 1
            };
            let l0 = if l < k {
                l
            } else {
                l - 1
            };
            if i != k && l != k {
                assert(kids[p][i0] != kids[p][l0]);
            } else if i == k {
                assert(after[q][l] == kids[p][l0]);
            } else {
                assert(after[q][i] == kids[p][i0]);
            }
        } else {
            assert(kids[q][i] != kids[q][l]);
        }
    }
    assert forall|q: int| 0 <= q < nodes.len() implies #[trigger] ends_linked(nodes, after, q) by {
        assert(ends_linked(old_nodes, kids, q));
    }
    assert forall|x: int| 0 <= x < nodes.len() implies #[trigger] parent_linked(
        nodes,
        after,
        x,
    ) by {
        assert(parent_linked(old_nodes, kids, x));
        if x == c {
            assert(after[p][k] == c);
        } else {
            match old_nodes[x].parent {
                Some(q) => {
                    let i = choose|i: int| 0 <= i < kids[q as int].len() && kids[q as int][i] == x;
                    if q as int == p {
                        let i1 = if i < k {
                            i
                        } else {
                            i + 1
                        };
                        assert(after[p][i1] == x);
                    } else {
                        assert(after[q as int][i] == x);
                    }
                },
                None => {},
            }
        }
    }
}

/// Handing all children of `src` to `dst`, before or behind those it has, and
/// joining the two lists where they meet leaves links that spell out the joined
/// list under `dst` and none under `src`.
proof fn lemma_moved<T>(
    old_nodes: Seq<Node<T>>,
    nodes: Seq<Node<T>>,
    kids: Seq<Seq<int>>,
    dst: int,
    src: int,
    behind: bool,
)
    requires
        spelled(old_nodes, kids),
        0 <= dst < old_nodes.len(),
        0 <= src < old_nodes.len(),
        dst != src,
        kids[src].len() > 0,
        nodes.len() == old_nodes.len(),
        ({
            let left = if behind {
                kids[dst]
            } else {
                kids[src]
            };
            let right = if behind {
                kids[src]
            } else {
                kids[dst]
            };
            let joined = left + right;
            let meet = left.len() > 0 && right.len() > 0;
            &&& forall|i: int|
                0 <= i < nodes.len() ==> as_index((#[trigger] nodes[i]).parent) == if as_index(
                    old_nodes[i].parent,
                ) == Some(src) {
                    Some(dst)
                } else {
                    as_index(old_nodes[i].parent)
                }
            &&& forall|i: int|
                0 <= i < nodes.len() && !(meet && i == right.first()) ==> (
                #[trigger] nodes[i]).prev_sibling == old_nodes[i].prev_sibling
            &&& forall|i: int|
                0 <= i < nodes.len() && !(meet && i == left.last()) ==> (
                #[trigger] nodes[i]).next_sibling == old_nodes[i].next_sibling
            &&& forall|i: int|
                0 <= i < nodes.len() && i != dst && i != src ==> (#[trigger] nodes[i]).children
                    == old_nodes[i].children
            &&& meet ==> as_index(nodes[right.first()].prev_sibling) == Some(left.last())
            &&& meet ==> as_index(nodes[left.last()].next_sibling) == Some(right.first())
            &&& nodes[src].children is None
            &&& nodes[dst].children == Some((joined.first() as usize, joined.last() as usize))
        }),
    ensures
        spelled(
            nodes,
            kids.update(src, Seq::empty()).update(
                dst,
                if behind {
                    kids[dst] + kids[src]
                } else {
                    kids[src] + kids[dst]
                },
            ),
        ),
{
    let left = if behind {
        kids[dst]
    } else {
        kids[src]
    };
    let right = if behind {
        kids[src]
    } else {
        kids[dst]
    };
    let lp = if behind {
        dst
    } else {
        src
    };
    let rp = if behind {
        src
    } else {
        dst
    };
    let joined = left + right;
    let n = left.len() as int;
    let after = kids.update(src, Seq::empty()).update(dst, joined);
    assert forall|i: int, l: int| 0 <= i < left.len() && 0 <= l < right.len() implies left[i]
        != right[l] by {
        assert(child_linked(old_nodes, kids, lp, i));
        assert(child_linked(old_nodes, kids, rp, l));
    }
    if left.len() > 0 {
        assert(child_linked(old_nodes, kids, lp, n - 1));
    }
    if right.len() > 0 {
        assert(child_linked(old_nodes, kids, rp, 0));
    }
    assert forall|q: int, i: int| 0 <= q < nodes.len() && 0 <= i < after[q].len() implies
        #[trigger] child_linked(nodes, after, q, i) by {
        if q == dst {
            if i < n {
                assert(joined[i] == left[i]);
                assert(child_linked(old_nodes, kids, lp, i));
                if i + 1 < n {
                    assert(left[i] != left[n - 1]);
                    assert(joined[i + 1] == left[i + 1]);
                } else if right.len() > 0 {
                    assert(joined[i + 1] == right[0]);
                }
                if i > 0 {
                    assert(joined[i - 1] == left[i - 1]);
                }
            } else {
                let i0 = i - n;
                assert(joined[i] == right[i0]);
                assert(child_linked(old_nodes, kids, rp, i0));
                if i0 > 0 {
                    assert(right[0] != right[i0]);
                    assert(joined[i - 1] == right[i0 - 1]);
                } else if n > 0 {
                    assert(joined[i - 1] == left[n - 1]);
                }
                if i0 + 1 < right.len() {
                    assert(joined[i + 1] == right[i0 + 1]);
                }
            }
        } else {
            assert(after[q][i] == kids[q][i]);
            assert(child_linked(old_nodes, kids, q, i));
        }
    }
    assert forall|q: int, i: int, l: int| 0 <= q < nodes.len() && 0 <= i < l < after[q].len()
        implies #[trigger] after[q][i] != #[trigger] after[q][l] by {
        if q == dst {
            if l < n {
                assert(left[i] != left[l]);
            } else if i >= n {
                assert(right[i - n] != right[l - n]);
            } else {
                assert(left[i] != right[l - n]);
            }
        } else {
            assert(kids[q][i] != kids[q][l]);
        }
    }
    assert forall|q: int| 0 <= q < nodes.len() implies #[trigger] ends_linked(nodes, after, q) by {
        assert(ends_linked(old_nodes, kids, q));
    }
    assert forall|x: int| 0 <= x < nodes.len() implies #[trigger] parent_linked(
        nodes,
        after,
        x,
    ) by {
        assert(parent_linked(old_nodes, kids, x));
        match old_nodes[x].parent {
            Some(q) => {
                let i = choose|i: int| 0 <= i < kids[q as int].len() && kids[q as int][i] == x;
                if q as int == lp {
                    assert(after[dst][i] == x);
                } else if q as int == rp {
                    assert(after[dst][n + i] == x);
                } else {
                    assert(after[q as int][i] == x);
                }
            },
            None => {},
        }
    }
}

impl<T> View for Tree<T> {
    type V = TreeView<T>;

    closed spec fn view(&self) -> TreeView<T> {
        TreeView {
            values: Seq::new(self.vec@.len(), |i: int| self.vec@[i].value),
            parents: Seq::new(self.vec@.len(), |i: int| as_index(self.vec@[i].parent)),
            children: choose|kids: Seq<Seq<int>>| spelled(self.vec@, kids),
        }
    }
}

impl<T> Tree<T> {
    /// The tag that this tree puts on the ids it makes.
    pub closed spec fn owner(&self) -> usize {
        self.owner
    }

    /// The arena is not empty and its links form consistent sibling lists.
    pub closed spec fn wf(&self) -> bool {
        &&& self.vec@.len() >= 1
        &&& exists|kids: Seq<Seq<int>>| spelled(self.vec@, kids)
    }

    /// `id` was made by this tree.
    pub open spec fn contains_id(&self, id: NodeId) -> bool {
        id.owner() == self.owner() && 0 <= id.index() < self@.len()
    }

    /// Every slot index fits the machine word.
    pub proof fn lemma_len_fits(&self)
        requires
            self.wf(),
        ensures
            self@.len() <= usize::MAX,
    {
        assert(spelled(self.vec@, self@.children));
    }

    /// A well-formed tree has a valid view.
    pub proof fn lemma_view_valid(&self)
        requires
            self.wf(),
        ensures
            self@.valid(),
    {
        let kids = self@.children;
        let v = self@;
        assert(spelled(self.vec@, kids));
        assert forall|p: int, j: int| v.has(p) && 0 <= j < v.children[p].len() implies {
            &&& v.has(#[trigger] v.children[p][j])
            &&& v.parents[v.children[p][j]] == Some(p)
        } by {
            assert(child_linked(self.vec@, kids, p, j));
        }
        assert forall|c: int| v.has(c) implies match #[trigger] v.parents[c] {
            Some(p) => v.has(p) && v.children[p].contains(c),
            None => true,
        } by {
            assert(parent_linked(self.vec@, kids, c));
        }
    }

    /// What the stored links of slot `i` are, in terms of the view.
    proof fn lemma_links(&self, i: int)
        requires
            self.wf(),
            self@.has(i),
        ensures
            self@.valid(),
            as_index(self.vec@[i].parent) == self@.parents[i],
            as_index(self.vec@[i].prev_sibling) == self@.prev_sibling(i),
            as_index(self.vec@[i].next_sibling) == self@.next_sibling(i),
            self.vec@[i].children is Some <==> self@.children[i].len() > 0,
            self.vec@[i].children matches Some(ends) ==> {
                &&& ends.0 as int == self@.children[i].first()
                &&& ends.1 as int == self@.children[i].last()
            },
            self.vec@[i].parent matches Some(p) ==> self@.has(p as int),
            self.vec@[i].prev_sibling matches Some(p) ==> self@.has(p as int),
            self.vec@[i].next_sibling matches Some(p) ==> self@.has(p as int),
            self.vec@[i].children matches Some(ends) ==> self@.has(ends.0 as int) && self@.has(
                ends.1 as int,
            ),
    {
        self.lemma_view_valid();
        let kids = self@.children;
        let v = self@;
        assert(spelled(self.vec@, kids));
        assert(ends_linked(self.vec@, kids, i));
        assert(parent_linked(self.vec@, kids, i));
        if kids[i].len() > 0 {
            assert(child_linked(self.vec@, kids, i, 0));
            assert(child_linked(self.vec@, kids, i, kids[i].len() - 1));
        }
        if v.parents[i] is Some {
            let p = v.parents[i].unwrap();
            v.lemma_child_slot(i);
            let j = v.position(i);
            assert(child_linked(self.vec@, kids, p, j));
            if j > 0 {
                assert(child_linked(self.vec@, kids, p, j - 1));
            }
            if j + 1 < kids[p].len() {
                assert(child_linked(self.vec@, kids, p, j + 1));
            }
        }
    }

    /// The child lists of the view are the ones that the links spell out.
    proof fn lemma_kids(&self, kids: Seq<Seq<int>>)
        requires
            self.vec@.len() >= 1,
            spelled(self.vec@, kids),
        ensures
            self.wf(),
            self@.children == kids,
    {
        lemma_spelled_once(self.vec@, kids, self@.children);
    }

    /// Other values in the same slots leave the tree well formed, with the same
    /// parents and children.
    proof fn lemma_values_replaced(&self, other: &Self)
        requires
            self.wf(),
            other.vec@.len() == self.vec@.len(),
            forall|i: int|
                0 <= i < self.vec@.len() ==> {
                    &&& (#[trigger] other.vec@[i]).parent == self.vec@[i].parent
                    &&& other.vec@[i].prev_sibling == self.vec@[i].prev_sibling
                    &&& other.vec@[i].next_sibling == self.vec@[i].next_sibling
                    &&& other.vec@[i].children == self.vec@[i].children
                },
        ensures
            other.wf(),
            other@.parents == self@.parents,
            other@.children == self@.children,
    {
        let kids = self@.children;
        assert(spelled(self.vec@, kids));
        assert forall|q: int, j: int| 0 <= q < other.vec@.len() && 0 <= j < kids[q].len() implies
            #[trigger] child_linked(other.vec@, kids, q, j) by {
            assert(child_linked(self.vec@, kids, q, j));
        }
        assert forall|q: int| 0 <= q < other.vec@.len() implies #[trigger] ends_linked(
            other.vec@,
            kids,
            q,
        ) by {
            assert(ends_linked(self.vec@, kids, q));
        }
        assert forall|x: int| 0 <= x < other.vec@.len() implies #[trigger] parent_linked(
            other.vec@,
            kids,
            x,
        ) by {
            assert(parent_linked(self.vec@, kids, x));
        }
        other.lemma_kids(kids);
        assert(other@.parents =~= self@.parents);
    }

    /// Creates a tree that holds the root alone and has room for `capacity`
    /// nodes before its arena grows.
    pub fn with_capacity(root: T, capacity: usize) -> (tree: Self)
        ensures
            tree.wf(),
            tree@ == TreeView::single(root),
            tree@.is_forest(),
    {
        proof {
            TreeView::lemma_single_forest(root);
        }
        let anchor = Box::new(0u8);
        let owner = address_of(&anchor);
        let mut vec = Vec::with_capacity(capacity);
        vec.push(Node::new(root));
        let tree = Tree { owner, anchor, vec };
        proof {
            let kids: Seq<Seq<int>> = seq![Seq::empty()];
            assert(ends_linked(tree.vec@, kids, 0));
            assert(parent_linked(tree.vec@, kids, 0));
            assert(spelled(tree.vec@, kids));
            tree.lemma_kids(kids);
            assert(tree@ =~= TreeView::single(root));
        }
        tree
    }

    /// Creates a tree that holds the root alone.
    pub fn new(root: T) -> (tree: Self)
        ensures
            tree.wf(),
            tree@ == TreeView::single(root),
            tree@.is_forest(),
    {
        proof {
            TreeView::lemma_single_forest(root);
        }
        let anchor = Box::new(0u8);
        let owner = address_of(&anchor);
        let mut vec = Vec::new();
        vec.push(Node::new(root));
        let tree = Tree { owner, anchor, vec };
        proof {
            let kids: Seq<Seq<int>> = seq![Seq::empty()];
            assert(spelled(tree.vec@, kids));
            tree.lemma_kids(kids);
            assert(tree@ =~= TreeView::single(root));
        }
        tree
    }
}

impl<T> Tree<T> {
    /// Number of slots.
    pub(crate) fn len(&self) -> (n: usize)
        requires
            self.wf(),
        ensures
            n == self@.len(),
            n >= 1,
    {
        self.vec.len()
    }

    /// The tag of this tree.
    pub(crate) fn tag(&self) -> (t: usize)
        ensures
            t == self.owner(),
    {
        self.owner
    }

    /// The value in slot `i`.
    pub(crate) fn value_at(&self, i: usize) -> (v: &T)
        requires
            self.wf(),
            self@.has(i as int),
        ensures
            *v == self@.values[i as int],
    {
        &self.vec[i].value
    }

    /// The parent of slot `i`.
    pub(crate) fn parent_index(&self, i: usize) -> (r: Option<usize>)
        requires
            self.wf(),
            self@.has(i as int),
        ensures
            as_index(r) == self@.parents[i as int],
            r matches Some(p) ==> self@.has(p as int),
    {
        proof {
            self.lemma_links(i as int);
        }
        self.vec[i].parent
    }

    /// The first child of slot `i`.
    pub(crate) fn first_child_index(&self, i: usize) -> (r: Option<usize>)
        requires
            self.wf(),
            self@.has(i as int),
        ensures
            as_index(r) == self@.first_child(i as int),
            r matches Some(c) ==> self@.has(c as int),
    {
        proof {
            self.lemma_links(i as int);
        }
        match self.vec[i].children {
            Some((first, _)) => Some(first),
            None => None,
        }
    }

    /// The last child of slot `i`.
    pub(crate) fn last_child_index(&self, i: usize) -> (r: Option<usize>)
        requires
            self.wf(),
            self@.has(i as int),
        ensures
            as_index(r) == self@.last_child(i as int),
            r matches Some(c) ==> self@.has(c as int),
    {
        proof {
            self.lemma_links(i as int);
        }
        match self.vec[i].children {
            Some((_, last)) => Some(last),
            None => None,
        }
    }

    /// The sibling just before slot `i`.
    pub(crate) fn prev_sibling_index(&self, i: usize) -> (r: Option<usize>)
        requires
            self.wf(),
            self@.has(i as int),
        ensures
            as_index(r) == self@.prev_sibling(i as int),
            r matches Some(c) ==> self@.has(c as int),
    {
        proof {
            self.lemma_links(i as int);
        }
        self.vec[i].prev_sibling
    }

    /// The sibling just after slot `i`.
    pub(crate) fn next_sibling_index(&self, i: usize) -> (r: Option<usize>)
        requires
            self.wf(),
            self@.has(i as int),
        ensures
            as_index(r) == self@.next_sibling(i as int),
            r matches Some(c) ==> self@.has(c as int),
    {
        proof {
            self.lemma_links(i as int);
        }
        self.vec[i].next_sibling
    }
}

impl<T> Tree<T> {
    /// Takes slot `i` out of its parent's child list. An orphan stays as it is.
    /// The slot keeps its value and its own children.
    pub(crate) fn unlink(&mut self, i: usize)
        requires
            old(self).wf(),
            old(self)@.has(i as int),
        ensures
            final(self).wf(),
            final(self).owner() == old(self).owner(),
            final(self)@ == old(self)@.detach(i as int),
    {
        proof {
            self.lemma_links(i as int);
        }
        let ghost view0 = self@;
        let ghost nodes0 = self.vec@;
        let ghost kids = self@.children;
        let parent_index: usize = match self.vec[i].parent {
            Some(p) => p,
            None => {
                return ;
            },
        };
        let prev_sibling_index = self.vec[i].prev_sibling;
        let next_sibling_index = self.vec[i].next_sibling;
        proof {
            assert(spelled(nodes0, kids));
            view0.lemma_child_slot(i as int);
            self.lemma_links(parent_index as int);
        }
        let ghost j = view0.position(i as int);
        let ghost p = parent_index as int;

        self.vec[i].parent = None;
        self.vec[i].prev_sibling = None;
        self.vec[i].next_sibling = None;

        if let Some(prev) = prev_sibling_index {
            self.vec[prev].next_sibling = next_sibling_index;
        }
        if let Some(next) = next_sibling_index {
            self.vec[next].prev_sibling = prev_sibling_index;
        }

        let (first_child_index, last_child_index) = self.vec[parent_index].children.unwrap();
        if first_child_index == last_child_index {
            self.vec[parent_index].children = None;
        } else if first_child_index == i {
            self.vec[parent_index].children = Some((next_sibling_index.unwrap(), last_child_index));
        } else if last_child_index == i {
            self.vec[parent_index].children = Some(
                (first_child_index, prev_sibling_index.unwrap()),
            );
        }

        proof {
            let m = kids[p].len();
            assert(child_linked(nodes0, kids, p, j));
            assert(child_linked(nodes0, kids, p, 0));
            assert(child_linked(nodes0, kids, p, m - 1));
            assert(ends_linked(nodes0, kids, p));
            if m > 1 {
                assert(kids[p][0] != kids[p][m - 1]);
                if j > 0 {
                    assert(kids[p][0] != kids[p][j]);
                }
                if j < m - 1 {
                    assert(kids[p][j] != kids[p][m - 1]);
                }
            }
            let rest = kids[p].remove(j);
            lemma_unlinked(nodes0, self.vec@, kids, p, j);
            self.lemma_kids(kids.update(p, rest));
            assert(self@ =~= view0.detach(i as int));
        }
    }
}

impl<T> Tree<T> {
    /// Adds a slot that is linked to nothing and returns its index.
    pub(crate) fn push_orphan(&mut self, value: T) -> (i: usize)
        requires
            old(self).wf(),
        ensures
            final(self).wf(),
            final(self).owner() == old(self).owner(),
            final(self)@ == old(self)@.push_orphan(value),
            i == old(self)@.len(),
    {
        let ghost view0 = self@;
        let ghost nodes0 = self.vec@;
        let ghost kids = self@.children;
        let i: usize = self.vec.len();
        self.vec.push(Node::new(value));
        proof {
            assert(spelled(nodes0, kids));
            let after = kids.push(Seq::empty());
            let nodes = self.vec@;
            assert(nodes.len() == self.vec.len());
            assert(after.len() == nodes.len());
            assert forall|q: int, j: int| 0 <= q < nodes.len() && 0 <= j < after[q].len() implies
                #[trigger] child_linked(nodes, after, q, j) by {
                assert(child_linked(nodes0, kids, q, j));
            }
            assert forall|q: int, j: int, l: int|
                0 <= q < nodes.len() && 0 <= j < l < after[q].len() implies #[trigger] after[q][j]
                != #[trigger] after[q][l] by {
                assert(kids[q][j] != kids[q][l]);
            }
            assert forall|q: int| 0 <= q < nodes.len() implies #[trigger] ends_linked(
                nodes,
                after,
                q,
            ) by {
                if q < nodes0.len() {
                    assert(ends_linked(nodes0, kids, q));
                }
            }
            assert forall|x: int| 0 <= x < nodes.len() implies #[trigger] parent_linked(
                nodes,
                after,
                x,
            ) by {
                if x < nodes0.len() {
                    assert(parent_linked(nodes0, kids, x));
                    match nodes0[x].parent {
                        Some(q) => {
                            let j = choose|j: int|
                                0 <= j < kids[q as int].len() && kids[q as int][j] == x;
                            assert(after[q as int][j] == x);
                        },
                        None => {},
                    }
                }
            }
            self.lemma_kids(after);
            assert(self@ =~= view0.push_orphan(value));
        }
        i
    }

    /// Makes the orphan `c` the last child of `p`.
    pub(crate) fn link_last_child(&mut self, p: usize, c: usize)
        requires
            old(self).wf(),
            old(self)@.has(p as int),
            old(self)@.has(c as int),
            old(self)@.is_orphan(c as int),
        ensures
            final(self).wf(),
            final(self).owner() == old(self).owner(),
            final(self)@ == old(self)@.attach(
                p as int,
                old(self)@.children[p as int].len() as int,
                c as int,
            ),
    {
        proof {
            self.lemma_links(p as int);
            self.lemma_links(c as int);
        }
        let ghost view0 = self@;
        let ghost nodes0 = self.vec@;
        let ghost kids = self@.children;
        let ghost m = kids[p as int].len() as int;
        let last_child_index = match self.vec[p].children {
            Some((_, last)) => Some(last),
            None => None,
        };

        self.vec[c].parent = Some(p);
        self.vec[c].prev_sibling = last_child_index;

        if let Some(last) = last_child_index {
            self.vec[last].next_sibling = Some(c);
        }

        match self.vec[p].children {
            Some((first, _)) => {
                self.vec[p].children = Some((first, c));
            },
            None => {
                self.vec[p].children = Some((c, c));
            },
        }

        proof {
            assert(spelled(nodes0, kids));
            assert(parent_linked(nodes0, kids, c as int));
            assert(ends_linked(nodes0, kids, p as int));
            if m > 0 {
                assert(child_linked(nodes0, kids, p as int, m - 1));
                assert(child_linked(nodes0, kids, p as int, 0));
            }
            lemma_linked(nodes0, self.vec@, kids, p as int, m, c as int);
            self.lemma_kids(kids.update(p as int, kids[p as int].insert(m, c as int)));
            assert(self@ =~= view0.attach(p as int, m, c as int));
        }
    }

    /// Makes the orphan `c` the first child of `p`.
    pub(crate) fn link_first_child(&mut self, p: usize, c: usize)
        requires
            old(self).wf(),
            old(self)@.has(p as int),
            old(self)@.has(c as int),
            old(self)@.is_orphan(c as int),
        ensures
            final(self).wf(),
            final(self).owner() == old(self).owner(),
            final(self)@ == old(self)@.attach(p as int, 0, c as int),
    {
        proof {
            self.lemma_links(p as int);
            self.lemma_links(c as int);
        }
        let ghost view0 = self@;
        let ghost nodes0 = self.vec@;
        let ghost kids = self@.children;
        let ghost m = kids[p as int].len() as int;
        let first_child_index = match self.vec[p].children {
            Some((first, _)) => Some(first),
            None => None,
        };

        self.vec[c].parent = Some(p);
        self.vec[c].next_sibling = first_child_index;

        if let Some(first) = first_child_index {
            self.vec[first].prev_sibling = Some(c);
        }

        match self.vec[p].children {
            Some((_, last)) => {
                self.vec[p].children = Some((c, last));
            },
            None => {
                self.vec[p].children = Some((c, c));
            },
        }

        proof {
            assert(spelled(nodes0, kids));
            assert(parent_linked(nodes0, kids, c as int));
            assert(ends_linked(nodes0, kids, p as int));
            if m > 0 {
                assert(child_linked(nodes0, kids, p as int, m - 1));
                assert(child_linked(nodes0, kids, p as int, 0));
            }
            lemma_linked(nodes0, self.vec@, kids, p as int, 0, c as int);
            self.lemma_kids(kids.update(p as int, kids[p as int].insert(0, c as int)));
            assert(self@ =~= view0.attach(p as int, 0, c as int));
        }
    }

    /// Makes the orphan `c` the sibling just before `a`, which has a parent.
    pub(crate) fn link_before(&mut self, a: usize, c: usize)
        requires
            old(self).wf(),
            old(self)@.has(a as int),
            old(self)@.has(c as int),
            !old(self)@.is_orphan(a as int),
            old(self)@.is_orphan(c as int),
        ensures
            final(self).wf(),
            final(self).owner() == old(self).owner(),
            final(self)@ == old(self)@.attach(
                old(self)@.parents[a as int].unwrap(),
                old(self)@.position(a as int),
                c as int,
            ),
    {
        proof {
            self.lemma_links(a as int);
            self.lemma_links(c as int);
        }
        let ghost view0 = self@;
        let ghost nodes0 = self.vec@;
        let ghost kids = self@.children;
        let parent_index: usize = self.vec[a].parent.unwrap();
        let prev_sibling_index = self.vec[a].prev_sibling;
        let ghost p = parent_index as int;
        let ghost k = view0.position(a as int);
        proof {
            view0.lemma_child_slot(a as int);
            self.lemma_links(p);
        }

        self.vec[c].parent = Some(parent_index);
        self.vec[c].prev_sibling = prev_sibling_index;
        self.vec[c].next_sibling = Some(a);

        if let Some(prev) = prev_sibling_index {
            self.vec[prev].next_sibling = Some(c);
        }

        self.vec[a].prev_sibling = Some(c);

        let (first_child_index, last_child_index) = self.vec[parent_index].children.unwrap();
        if first_child_index == a {
            self.vec[parent_index].children = Some((c, last_child_index));
        }

        proof {
            let m = kids[p].len() as int;
            assert(spelled(nodes0, kids));
            assert(parent_linked(nodes0, kids, c as int));
            assert(ends_linked(nodes0, kids, p));
            assert(child_linked(nodes0, kids, p, k));
            assert(child_linked(nodes0, kids, p, m - 1));
            assert(child_linked(nodes0, kids, p, 0));
            if k > 0 {
                assert(child_linked(nodes0, kids, p, k - 1));
                assert(kids[p][0] != kids[p][k]);
            }
            lemma_linked(nodes0, self.vec@, kids, p, k, c as int);
            self.lemma_kids(kids.update(p, kids[p].insert(k, c as int)));
            assert(self@ =~= view0.attach(p, k, c as int));
        }
    }

    /// Makes the orphan `c` the sibling just after `a`, which has a parent.
    pub(crate) fn link_after(&mut self, a: usize, c: usize)
        requires
            old(self).wf(),
            old(self)@.has(a as int),
            old(self)@.has(c as int),
            !old(self)@.is_orphan(a as int),
            old(self)@.is_orphan(c as int),
        ensures
            final(self).wf(),
            final(self).owner() == old(self).owner(),
            final(self)@ == old(self)@.attach(
                old(self)@.parents[a as int].unwrap(),
                old(self)@.position(a as int) + 1,
                c as int,
            ),
    {
        proof {
            self.lemma_links(a as int);
            self.lemma_links(c as int);
        }
        let ghost view0 = self@;
        let ghost nodes0 = self.vec@;
        let ghost kids = self@.children;
        let parent_index: usize = self.vec[a].parent.unwrap();
        let next_sibling_index = self.vec[a].next_sibling;
        let ghost p = parent_index as int;
        let ghost k = view0.position(a as int) + 1;
        proof {
            view0.lemma_child_slot(a as int);
            self.lemma_links(p);
        }

        self.vec[c].parent = Some(parent_index);
        self.vec[c].prev_sibling = Some(a);
        self.vec[c].next_sibling = next_sibling_index;

        if let Some(next) = next_sibling_index {
            self.vec[next].prev_sibling = Some(c);
        }

        self.vec[a].next_sibling = Some(c);

        let (first_child_index, last_child_index) = self.vec[parent_index].children.unwrap();
        if last_child_index == a {
            self.vec[parent_index].children = Some((first_child_index, c));
        }

        proof {
            let m = kids[p].len() as int;
            assert(spelled(nodes0, kids));
            assert(parent_linked(nodes0, kids, c as int));
            assert(ends_linked(nodes0, kids, p));
            assert(child_linked(nodes0, kids, p, k - 1));
            assert(child_linked(nodes0, kids, p, m - 1));
            assert(child_linked(nodes0, kids, p, 0));
            if k < m {
                assert(child_linked(nodes0, kids, p, k));
                assert(kids[p][k - 1] != kids[p][m - 1]);
            }
            lemma_linked(nodes0, self.vec@, kids, p, k, c as int);
            self.lemma_kids(kids.update(p, kids[p].insert(k, c as int)));
            assert(self@ =~= view0.attach(p, k, c as int));
        }
    }
}

impl<T> Tree<T> {
    /// Writes `dst` as the parent of every child of `src`, walking the list of
    /// `src` from its first child.
    fn hand_over(&mut self, dst: usize, src: usize, first: usize)
        requires
            old(self).vec@.len() >= 1,
            spelled(old(self).vec@, old(self)@.children),
            0 <= dst < old(self).vec@.len(),
            0 <= src < old(self).vec@.len(),
            old(self)@.children[src as int].len() > 0,
            first == old(self)@.children[src as int].first(),
        ensures
            final(self).owner == old(self).owner,
            final(self).vec@.len() == old(self).vec@.len(),
            forall|i: int|
                0 <= i < final(self).vec@.len() ==> {
                    &&& as_index((#[trigger] final(self).vec@[i]).parent) == if as_index(
                        old(self).vec@[i].parent,
                    ) == Some(src as int) {
                        Some(dst as int)
                    } else {
                        as_index(old(self).vec@[i].parent)
                    }
                    &&& final(self).vec@[i].prev_sibling == old(self).vec@[i].prev_sibling
                    &&& final(self).vec@[i].next_sibling == old(self).vec@[i].next_sibling
                    &&& final(self).vec@[i].children == old(self).vec@[i].children
                    &&& final(self).vec@[i].value == old(self).vec@[i].value
                },
    {
        let ghost nodes0 = self.vec@;
        let ghost kids = self@.children;
        let ghost moved = kids[src as int];
        let mut next: Option<usize> = Some(first);
        let ghost mut t: int = 0;
        proof {
            assert forall|j: int| 0 <= j < moved.len() implies 0 <= #[trigger] moved[j]
                < nodes0.len() by {
                assert(child_linked(nodes0, kids, src as int, j));
            }
        }
        while next.is_some()
            invariant
                spelled(nodes0, kids),
                moved == kids[src as int],
                0 <= src < nodes0.len(),
                0 <= dst < nodes0.len(),
                self.owner == old(self).owner,
                self.vec@.len() == nodes0.len(),
                0 <= t <= moved.len(),
                as_index(next) == if t < moved.len() {
                    Some(moved[t])
                } else {
                    None
                },
                forall|i: int|
                    0 <= i < nodes0.len() ==> {
                        &&& (#[trigger] self.vec@[i]).prev_sibling == nodes0[i].prev_sibling
                        &&& self.vec@[i].next_sibling == nodes0[i].next_sibling
                        &&& self.vec@[i].children == nodes0[i].children
                        &&& self.vec@[i].value == nodes0[i].value
                    },
                forall|j: int| 0 <= j < moved.len() ==> 0 <= #[trigger] moved[j] < nodes0.len(),
                forall|j: int|
                    0 <= j < t ==> as_index(self.vec@[#[trigger] moved[j]].parent) == Some(
                        dst as int,
                    ),
                forall|i: int|
                    0 <= i < nodes0.len() && (forall|j: int| 0 <= j < t ==> moved[j] != i) ==> (
                    #[trigger] self.vec@[i]).parent == nodes0[i].parent,
            decreases moved.len() - t,
        {
            proof {
                assert(child_linked(nodes0, kids, src as int, t));
                assert forall|j: int| 0 <= j < t implies moved[j] != moved[t] by {}
            }
            let child: usize = next.unwrap();
            self.vec[child].parent = Some(dst);
            next = self.vec[child].next_sibling;
            proof {
                t = t + 1;
            }
        }
        proof {
            assert forall|i: int| 0 <= i < self.vec@.len() implies as_index(
                (#[trigger] self.vec@[i]).parent,
            ) == if as_index(nodes0[i].parent) == Some(src as int) {
                Some(dst as int)
            } else {
                as_index(nodes0[i].parent)
            } by {
                assert(parent_linked(nodes0, kids, i));
                if as_index(nodes0[i].parent) == Some(src as int) {
                    let j = choose|j: int|
                        0 <= j < kids[src as int].len() && kids[src as int][j] == i;
                    assert(moved[j] == i);
                } else {
                    assert forall|j: int| 0 <= j < t implies moved[j] != i by {
                        assert(child_linked(nodes0, kids, src as int, j));
                    }
                }
            }
        }
    }

    /// Moves all children of `src`, in their order, behind the children of
    /// `dst`, and writes `dst` as the parent of each.
    #[verifier::spinoff_prover]
    #[verifier::rlimit(60)]
    pub(crate) fn move_children_last(&mut self, dst: usize, src: usize)
        requires
            old(self).wf(),
            old(self)@.has(dst as int),
            old(self)@.has(src as int),
        ensures
            final(self).wf(),
            final(self).owner() == old(self).owner(),
            final(self)@ == old(self)@.adopt_last(dst as int, src as int),
    {
        proof {
            self.lemma_links(dst as int);
            self.lemma_links(src as int);
        }
        let ghost view0 = self@;
        let ghost nodes0 = self.vec@;
        let ghost kids = self@.children;
        let new_children: (usize, usize) = match self.vec[src].children {
            Some(ends) => ends,
            None => {
                return ;
            },
        };
        if dst == src {
            return ;
        }
        proof {
            assert(spelled(nodes0, kids));
        }
        self.hand_over(dst, src, new_children.0);
        self.vec[src].children = None;

        match self.vec[dst].children {
            None => {
                self.vec[dst].children = Some(new_children);
            },
            Some(old_children) => {
                self.vec[old_children.1].next_sibling = Some(new_children.0);
                self.vec[new_children.0].prev_sibling = Some(old_children.1);
                self.vec[dst].children = Some((old_children.0, new_children.1));
            },
        }

        proof {
            let a = kids[dst as int];
            let b = kids[src as int];
            assert(ends_linked(nodes0, kids, dst as int));
            assert(ends_linked(nodes0, kids, src as int));
            assert(child_linked(nodes0, kids, src as int, 0));
            assert(child_linked(nodes0, kids, src as int, b.len() - 1));
            if a.len() > 0 {
                assert(child_linked(nodes0, kids, dst as int, 0));
                assert(child_linked(nodes0, kids, dst as int, a.len() - 1));
            }
            lemma_moved(nodes0, self.vec@, kids, dst as int, src as int, true);
            self.lemma_kids(kids.update(src as int, Seq::empty()).update(dst as int, a + b));
            assert(self@ =~= view0.adopt_last(dst as int, src as int));
        }
    }

    /// Moves all children of `src`, in their order, before the children of
    /// `dst`, and writes `dst` as the parent of each.
    #[verifier::spinoff_prover]
    #[verifier::rlimit(60)]
    pub(crate) fn move_children_first(&mut self, dst: usize, src: usize)
        requires
            old(self).wf(),
            old(self)@.has(dst as int),
            old(self)@.has(src as int),
        ensures
            final(self).wf(),
            final(self).owner() == old(self).owner(),
            final(self)@ == old(self)@.adopt_first(dst as int, src as int),
    {
        proof {
            self.lemma_links(dst as int);
            self.lemma_links(src as int);
        }
        let ghost view0 = self@;
        let ghost nodes0 = self.vec@;
        let ghost kids = self@.children;
        let new_children: (usize, usize) = match self.vec[src].children {
            Some(ends) => ends,
            None => {
                return ;
            },
        };
        if dst == src {
            return ;
        }
        proof {
            assert(spelled(nodes0, kids));
        }
        self.hand_over(dst, src, new_children.0);
        self.vec[src].children = None;

        match self.vec[dst].children {
            None => {
                self.vec[dst].children = Some(new_children);
            },
            Some(old_children) => {
                self.vec[old_children.0].prev_sibling = Some(new_children.1);
                self.vec[new_children.1].next_sibling = Some(old_children.0);
                self.vec[dst].children = Some((new_children.0, old_children.1));
            },
        }

        proof {
            let a = kids[dst as int];
            let b = kids[src as int];
            assert(ends_linked(nodes0, kids, dst as int));
            assert(ends_linked(nodes0, kids, src as int));
            assert(child_linked(nodes0, kids, src as int, 0));
            assert(child_linked(nodes0, kids, src as int, b.len() - 1));
            if a.len() > 0 {
                assert(child_linked(nodes0, kids, dst as int, 0));
                assert(child_linked(nodes0, kids, dst as int, a.len() - 1));
            }
            lemma_moved(nodes0, self.vec@, kids, dst as int, src as int, false);
            self.lemma_kids(kids.update(src as int, Seq::empty()).update(dst as int, b + a));
            assert(self@ =~= view0.adopt_first(dst as int, src as int));
        }
    }
}

impl<T> Tree<T> {
    /// The id of slot `i`.
    pub(crate) fn node_id(&self, i: usize) -> (id: NodeId)
        ensures
            id.owner() == self.owner(),
            id.index() == i,
    {
        NodeId { owner: self.owner, index: i }
    }

    /// The slot that `id` names, if this tree made the id.
    pub(crate) fn locate(&self, id: NodeId) -> (r: Option<usize>)
        requires
            self.wf(),
        ensures
            r is Some <==> self.contains_id(id),
            r matches Some(i) ==> i == id.index(),
    {
        if id.owner == self.owner && id.index < self.vec.len() {
            Some(id.index)
        } else {
            None
        }
    }

    /// The value in slot `i`, to be changed in place.
    pub(crate) fn value_at_mut(&mut self, i: usize) -> (v: &mut T)
        requires
            old(self).wf(),
            old(self)@.has(i as int),
        ensures
            *v == old(self)@.values[i as int],
            final(self).wf(),
            final(self).owner() == old(self).owner(),
            final(self)@ == old(self)@.set_value(i as int, *final(v)),
    {
        let ghost before = *self;
        proof {
            assert forall|after: Self|
                #![trigger after.wf()]
                #![trigger after.view()]
                after.owner == before.owner && after.vec@.len() == before.vec@.len() && (forall|
                    k: int,
                |
                    0 <= k < before.vec@.len() ==> {
                        &&& (#[trigger] after.vec@[k]).parent == before.vec@[k].parent
                        &&& after.vec@[k].prev_sibling == before.vec@[k].prev_sibling
                        &&& after.vec@[k].next_sibling == before.vec@[k].next_sibling
                        &&& after.vec@[k].children == before.vec@[k].children
                        &&& k != i ==> after.vec@[k].value == before.vec@[k].value
                    }) implies after.wf() && after.view() == before@.set_value(
                i as int,
                after.vec@[i as int].value,
            ) by {
                before.lemma_values_replaced(&after);
                assert(after@ =~= before@.set_value(i as int, after.vec@[i as int].value));
            }
        }
        &mut self.vec[i].value
    }

    /// The root of the tree.
    pub fn root(&self) -> (r: NodeRef<'_, T>)
        requires
            self.wf(),
        ensures
            r.wf(),
            r.arena() == *self,
            r.index() == 0,
    {
        proof {
            self.lemma_view_valid();
        }
        NodeRef::at(self, 0)
    }

    /// A cursor on the root of the tree.
    pub fn root_mut(&mut self) -> (r: NodeMut<'_, T>)
        requires
            old(self).wf(),
        ensures
            r.wf(),
            r.arena() == *old(self),
            r.index() == 0,
            *final(self) == *final(r.loan()),
    {
        proof {
            self.lemma_view_valid();
        }
        NodeMut::at(self, 0)
    }

    /// Creates a node that is linked to nothing, and returns a cursor on it.
    pub fn orphan(&mut self, value: T) -> (r: NodeMut<'_, T>)
        requires
            old(self).wf(),
        ensures
            r.wf(),
            r.arena().owner() == old(self).owner(),
            r.arena()@ == old(self)@.push_orphan(value),
            r.index() == old(self)@.len(),
            old(self)@.is_forest() ==> r.arena()@.is_forest(),
            *final(self) == *final(r.loan()),
    {
        proof {
            self.lemma_view_valid();
            if self@.is_forest() {
                self@.lemma_push_orphan_forest(value);
            }
        }
        let i: usize = self.push_orphan(value);
        NodeMut::at(self, i)
    }

    /// The node that `id` names: `None` if another tree made the id.
    pub fn get(&self, id: NodeId) -> (r: Option<NodeRef<'_, T>>)
        requires
            self.wf(),
        ensures
            r is Some <==> self.contains_id(id),
            r matches Some(n) ==> n.wf() && n.arena() == *self && n.index() == id.index(),
    {
        match self.locate(id) {
            Some(i) => Some(NodeRef::at(self, i)),
            None => None,
        }
    }

    /// A cursor on the node that `id` names: `None` if another tree made the
    /// id.
    pub fn get_mut(&mut self, id: NodeId) -> (r: Option<NodeMut<'_, T>>)
        requires
            old(self).wf(),
        ensures
            r is Some <==> old(self).contains_id(id),
            match r {
                Some(n) => {
                    &&& n.wf()
                    &&& n.arena() == *old(self)
                    &&& n.index() == id.index()
                    &&& *final(self) == *final(n.loan())
                },
                None => *final(self) == *old(self),
            },
    {
        match self.locate(id) {
            Some(i) => Some(NodeMut::at(self, i)),
            None => None,
        }
    }
}

impl<T> Tree<T> {
    /// Moves the values out of the arena, last slot first.
    pub(crate) fn take_values(self) -> (out: Vec<T>)
        requires
            self.wf(),
        ensures
            out@ == self@.values.reverse(),
    {
        let ghost values = self@.values;
        let mut vec = self.vec;
        let mut out: Vec<T> = Vec::new();
        while vec.len() > 0
            invariant
                vec@.len() <= values.len(),
                out@.len() == values.len() - vec@.len(),
                forall|i: int| 0 <= i < vec@.len() ==> (#[trigger] vec@[i]).value == values[i],
                forall|i: int|
                    0 <= i < out@.len() ==> #[trigger] out@[i] == values[values.len() - 1 - i],
            decreases vec@.len(),
        {
            let node = vec.pop().unwrap();
            out.push(node.value);
        }
        proof {
            assert(out@ =~= values.reverse());
        }
        out
    }
}

/// Whether two stored links are the same.
fn same_link(a: Option<usize>, b: Option<usize>) -> (r: bool)
    ensures
        r == (a == b),
{
    match (a, b) {
        (Some(x), Some(y)) => x == y,
        (None, None) => true,
        _ => false,
    }
}

/// Whether two slots name the same first and last child.
fn same_ends(a: Option<(usize, usize)>, b: Option<(usize, usize)>) -> (r: bool)
    ensures
        r == (a == b),
{
    match (a, b) {
        (Some(x), Some(y)) => x.0 == y.0 && x.1 == y.1,
        (None, None) => true,
        _ => false,
    }
}

impl<T: PartialEq> Tree<T> {
    /// The two arenas have the same number of slots, and slot by slot the same
    /// links and equal values. The tags play no part.
    pub closed spec fn same_records(&self, other: &Self) -> bool {
        &&& self.vec@.len() == other.vec@.len()
        &&& forall|i: int|
            0 <= i < self.vec@.len() ==> {
                &&& (#[trigger] self.vec@[i]).parent == other.vec@[i].parent
                &&& self.vec@[i].prev_sibling == other.vec@[i].prev_sibling
                &&& self.vec@[i].next_sibling == other.vec@[i].next_sibling
                &&& self.vec@[i].children == other.vec@[i].children
                &&& self.vec@[i].value.eq_spec(&other.vec@[i].value)
            }
    }

    /// Two well-formed trees have the same records exactly when they have the
    /// same parents and children and, node by node, equal values.
    pub proof fn lemma_same_records(&self, other: &Self)
        requires
            self.wf(),
            other.wf(),
        ensures
            self.same_records(other) <==> {
                &&& self@.parents == other@.parents
                &&& self@.children == other@.children
                &&& self@.values.len() == other@.values.len()
                &&& forall|i: int|
                    0 <= i < self@.values.len() ==> (#[trigger] self@.values[i]).eq_spec(
                        &other@.values[i],
                    )
            },
    {
        if self.same_records(other) {
            let kids = self@.children;
            assert(spelled(self.vec@, kids));
            assert forall|q: int, j: int|
                0 <= q < other.vec@.len() && 0 <= j < kids[q].len() implies #[trigger] child_linked(
                other.vec@,
                kids,
                q,
                j,
            ) by {
                assert(child_linked(self.vec@, kids, q, j));
            }
            assert forall|q: int| 0 <= q < other.vec@.len() implies #[trigger] ends_linked(
                other.vec@,
                kids,
                q,
            ) by {
                assert(ends_linked(self.vec@, kids, q));
            }
            assert forall|x: int| 0 <= x < other.vec@.len() implies #[trigger] parent_linked(
                other.vec@,
                kids,
                x,
            ) by {
                assert(parent_linked(self.vec@, kids, x));
            }
            other.lemma_kids(kids);
            assert(self@.parents =~= other@.parents);
            assert forall|i: int| 0 <= i < self@.values.len() implies (
            #[trigger] self@.values[i]).eq_spec(&other@.values[i]) by {
                assert(self.vec@[i].value.eq_spec(&other.vec@[i].value));
            }
        }
        if self@.parents == other@.parents && self@.children == other@.children
            && self@.values.len() == other@.values.len() && (forall|i: int|
            0 <= i < self@.values.len() ==> (#[trigger] self@.values[i]).eq_spec(
                &other@.values[i],
            )) {
            assert forall|i: int| 0 <= i < self.vec@.len() implies {
                &&& (#[trigger] self.vec@[i]).parent == other.vec@[i].parent
                &&& self.vec@[i].prev_sibling == other.vec@[i].prev_sibling
                &&& self.vec@[i].next_sibling == other.vec@[i].next_sibling
                &&& self.vec@[i].children == other.vec@[i].children
                &&& self.vec@[i].value.eq_spec(&other.vec@[i].value)
            } by {
                self.lemma_links(i);
                other.lemma_links(i);
                assert(self@.parents[i] == other@.parents[i]);
                assert(self@.values[i].eq_spec(&other@.values[i]));
            }
        }
    }
}

impl<T: PartialEq> PartialEq for Tree<T> {
    /// Compares the records of the two arenas, slot by slot. Trees with
    /// different tags can be equal.
    fn eq(&self, other: &Self) -> (r: bool) {
        let n: usize = self.vec.len();
        if n != other.vec.len() {
            return false;
        }
        let mut i: usize = 0;
        while i < n
            invariant
                n == self.vec@.len(),
                n == other.vec@.len(),
                0 <= i <= n,
                T::obeys_eq_spec() ==> forall|j: int|
                    0 <= j < i ==> {
                        &&& (#[trigger] self.vec@[j]).parent == other.vec@[j].parent
                        &&& self.vec@[j].prev_sibling == other.vec@[j].prev_sibling
                        &&& self.vec@[j].next_sibling == other.vec@[j].next_sibling
                        &&& self.vec@[j].children == other.vec@[j].children
                        &&& self.vec@[j].value.eq_spec(&other.vec@[j].value)
                    },
            decreases n - i,
        {
            let a = &self.vec[i];
            let b = &other.vec[i];
            let same = same_link(a.parent, b.parent) && same_link(a.prev_sibling, b.prev_sibling)
                && same_link(a.next_sibling, b.next_sibling) && same_ends(a.children, b.children)
                && a.value == b.value;
            if !same {
                return false;
            }
            i = i + 1;
        }
        true
    }
}

impl<T: PartialEq> PartialEqSpecImpl for Tree<T> {
    open spec fn obeys_eq_spec() -> bool {
        T::obeys_eq_spec()
    }

    open spec fn eq_spec(&self, other: &Self) -> bool {
        self.same_records(other)
    }
}

impl<T: Eq> Eq for Tree<T> {

}

impl<T: Clone> Clone for Tree<T> {
    /// Copies the records into a new arena with a tag of its own: the ids of
    /// this tree mean nothing to the copy.
    fn clone(&self) -> (tree: Self)
        ensures
            self.wf() ==> {
                &&& tree.wf()
                &&& tree@.parents == self@.parents
                &&& tree@.children == self@.children
                &&& tree@.values.len() == self@.values.len()
                &&& forall|i: int|
                    0 <= i < self@.values.len() ==> cloned(
                        #[trigger] self@.values[i],
                        tree@.values[i],
                    )
            },
    {
        let anchor = Box::new(0u8);
        let owner = address_of(&anchor);
        let n: usize = self.vec.len();
        let mut vec: Vec<Node<T>> = Vec::with_capacity(n);
        let mut i: usize = 0;
        while i < n
            invariant
                n == self.vec@.len(),
                0 <= i <= n,
                vec@.len() == i,
                forall|j: int|
                    0 <= j < i ==> {
                        &&& (#[trigger] vec@[j]).parent == self.vec@[j].parent
                        &&& vec@[j].prev_sibling == self.vec@[j].prev_sibling
                        &&& vec@[j].next_sibling == self.vec@[j].next_sibling
                        &&& vec@[j].children == self.vec@[j].children
                        &&& cloned(self.vec@[j].value, vec@[j].value)
                    },
            decreases n - i,
        {
            let node = &self.vec[i];
            vec.push(
                Node {
                    parent: node.parent,
                    prev_sibling: node.prev_sibling,
                    next_sibling: node.next_sibling,
                    children: node.children,
                    value: node.value.clone(),
                },
            );
            i = i + 1;
        }
        let tree = Tree { owner, anchor, vec };
        proof {
            if self.wf() {
                self.lemma_values_replaced(&tree);
            }
        }
        tree
    }
}

impl<T: Default> Default for Tree<T> {
    /// A tree that holds a root with the default value.
    fn default() -> (tree: Self)
        ensures
            tree.wf(),
            tree@.same_shape(TreeView::single(tree@.values[0])),
            T::default.ensures((), tree@.values[0]),
    {
        let tree = Tree::new(T::default());
        tree
    }
}

impl<T> Tree<T> {
    /// The slot that a depth-first walk from `root` enters after `n`.
    pub(crate) fn walk_next_index(&self, root: usize, n: usize) -> (r: Option<usize>)
        requires
            self.wf(),
            self@.is_forest(),
            self@.has(root as int),
            self@.has(n as int),
        ensures
            as_index(r) == self@.walk_next(root as int, n as int),
            r matches Some(i) ==> self@.has(i as int),
    {
        if let Some(c) = self.first_child_index(n) {
            return Some(c);
        }
        let ghost view = self@;
        let ghost rank = view.some_rank();
        proof {
            self.lemma_view_valid();
            assert(view.ranked_by(rank));
        }
        let mut cur: usize = n;
        loop
            invariant
                self.wf(),
                view == self@,
                view.valid(),
                view.is_forest(),
                rank == view.some_rank(),
                view.ranked_by(rank),
                view.has(cur as int),
                view.has(root as int),
                view.enters_after(root as int, cur as int) == view.walk_next(
                    root as int,
                    n as int,
                ),
            decreases rank[cur as int],
        {
            if cur == root {
                return None;
            }
            if let Some(s) = self.next_sibling_index(cur) {
                return Some(s);
            }
            match self.parent_index(cur) {
                Some(p) => {
                    cur = p;
                },
                None => {
                    return None;
                },
            }
        }
    }
}

} // verus!
