//! The engine's model of the tree under traversal.
//!
//! The tree itself is owned outside the engine; what the traversal reads
//! of it is only identity, and child discovery. A node handle is an index;
//! node `0` is the root, and every node's index is larger than its
//! parent's, which is what makes the structure a tree: no node can be its
//! own ancestor, and every node hangs off a unique parent.

use vstd::prelude::*;

verus! {

/// A tree of nodes addressed by index. Node `0` is the root; each node
/// carries the list of its children, every child holding a larger index
/// than its parent, and every non-root node appearing as a child exactly
/// once.
pub struct Tree {
    children: Vec<Vec<usize>>,
}

impl Tree {
    /// The child lists, as mathematical sequences.
    pub closed spec fn children_seq(self) -> Seq<Seq<usize>> {
        self.children@.map_values(|row: Vec<usize>| row@)
    }

    /// The number of nodes.
    pub open spec fn n(self) -> nat {
        self.children_seq().len()
    }

    /// How many children node `p` has.
    pub open spec fn num_children(self, p: int) -> nat {
        self.children_seq()[p].len()
    }

    /// The `j`-th child of node `p`.
    pub open spec fn child_at(self, p: int, j: int) -> int {
        self.children_seq()[p][j] as int
    }

    /// True when position `j` of node `p`'s child list holds node `c`.
    pub open spec fn links(self, p: int, j: int, c: int) -> bool {
        &&& 0 <= p < self.n()
        &&& 0 <= j < self.num_children(p)
        &&& self.child_at(p, j) == c
    }

    /// True when `c` is one of `p`'s children.
    pub open spec fn is_child(self, p: int, c: int) -> bool {
        exists|j: int| self.links(p, j, c)
    }

    /// True when `c` hangs off some parent.
    pub open spec fn has_parent(self, c: int) -> bool {
        exists|p: int, j: int| self.links(p, j, c)
    }

    /// Well-formedness: the root exists, every child link points from a
    /// node to a higher-numbered node, every non-root node hangs off some
    /// parent, and no node is linked twice.
    pub open spec fn wf(self) -> bool {
        &&& 1 <= self.n() < usize::MAX
        &&& forall|p: int, j: int|
            0 <= p < self.n() && 0 <= j < self.num_children(p) ==> p < #[trigger] self.child_at(
                p,
                j,
            ) < self.n()
        &&& forall|c: int| 1 <= c < self.n() ==> #[trigger] self.has_parent(c)
        &&& forall|p1: int, j1: int, p2: int, j2: int, c: int|
            #[trigger] self.links(p1, j1, c) && #[trigger] self.links(p2, j2, c) ==> p1 == p2 && j1
                == j2
    }

    /// A node's distance from the root: zero for the root, one more than
    /// the parent's for every other node.
    pub open spec fn depth_of(self, c: int) -> nat
        decreases c when self.wf()
    {
        if c <= 0 || !self.has_parent(c) {
            0
        } else {
            let (p, j) = choose|p: int, j: int| self.links(p, j, c);
            1 + self.depth_of(p)
        }
    }

    /// A new tree holding only the root.
    pub fn new() -> (t: Tree)
        ensures
            t.wf(),
            t.n() == 1,
            t.num_children(0) == 0,
    {
        let mut children: Vec<Vec<usize>> = Vec::new();
        children.push(Vec::new());
        let t = Tree { children };
        proof {
            assert(t.children_seq().len() == 1);
            assert(t.num_children(0) == 0);
            assert forall|c: int| 1 <= c < t.n() implies #[trigger] t.has_parent(c) by {}
        }
        t
    }

    /// The number of nodes, for callers.
    pub fn num_nodes(&self) -> (r: usize)
        ensures
            r == self.n(),
    {
        self.children.len()
    }

    /// How many children a node has; this is the count its postorder step
    /// will receive.
    pub fn children_count(&self, node: usize) -> (r: usize)
        requires
            node < self.n(),
        ensures
            r == self.num_children(node as int),
    {
        self.children[node].len()
    }

    /// One child of a node, by position.
    pub fn child(&self, node: usize, j: usize) -> (r: usize)
        requires
            node < self.n(),
            j < self.num_children(node as int),
        ensures
            r == self.child_at(node as int, j as int),
    {
        self.children[node][j]
    }

    /// Grows the tree by one node hanging off `parent`, and returns the
    /// new node's index. Every existing link is kept as it was.
    pub fn add_node(&mut self, parent: usize) -> (id: usize)
        requires
            old(self).wf(),
            parent < old(self).n(),
            old(self).n() + 1 < usize::MAX,
        ensures
            (*final(self)).wf(),
            id == old(self).n(),
            (*final(self)).n() == old(self).n() + 1,
            (*final(self)).is_child(parent as int, id as int),
            forall|p: int, j: int, c: int|
                #[trigger] old(self).links(p, j, c) ==> (*final(self)).links(p, j, c),
            forall|p: int, c: int|
                0 <= c < old(self).n() ==> ((*final(self)).is_child(p, c) == old(self).is_child(
                    p,
                    c,
                )),
            forall|p: int|
                0 <= p < old(self).n() && p != parent ==> (*final(self)).num_children(p) == old(
                    self,
                ).num_children(p),
    {
        let id = self.children.len();
        let ghost told = *self;
        let mut row = self.children.remove(parent);
        row.push(id);
        self.children.insert(parent, row);
        self.children.push(Vec::new());
        proof {
            let tnew = *self;
            let n0 = told.n() as int;
            assert(tnew.children_seq().len() == n0 + 1);
            assert forall|p: int, j: int|
                0 <= p < tnew.n() && 0 <= j < tnew.num_children(p) implies p
                < #[trigger] tnew.child_at(p, j) < tnew.n() by {
                if p == parent && j == told.num_children(parent as int) {
                    assert(tnew.child_at(p, j) == id);
                } else {
                    assert(p < n0 && tnew.child_at(p, j) == told.child_at(p, j));
                }
            }
            assert forall|p: int, j: int, c: int| told.links(p, j, c) implies #[trigger] tnew.links(
                p,
                j,
                c,
            ) by {}
            assert forall|p: int, j: int, c: int| #[trigger] tnew.links(p, j, c) implies (told.links(
                p,
                j,
                c,
            ) || (p == parent && j == told.num_children(parent as int) && c == id)) by {
                if p == parent {
                    if j < told.num_children(parent as int) {
                        assert(told.links(p, j, c));
                    } else {
                        assert(c == id);
                    }
                } else if p < n0 {
                    assert(told.links(p, j, c));
                } else {
                    assert(tnew.num_children(p) == 0);
                }
            }
            assert(tnew.links(parent as int, told.num_children(parent as int) as int, id as int));
            assert forall|c: int| 1 <= c < tnew.n() implies #[trigger] tnew.has_parent(c) by {
                if c < n0 {
                    if c >= 1 {
                        assert(told.has_parent(c));
                        let (p, j) = choose|p: int, j: int| told.links(p, j, c);
                        assert(tnew.links(p, j, c));
                    }
                } else {
                    assert(tnew.links(
                        parent as int,
                        told.num_children(parent as int) as int,
                        c,
                    ));
                }
            }
            assert forall|p1: int, j1: int, p2: int, j2: int, c: int|
                #[trigger] tnew.links(p1, j1, c) && #[trigger] tnew.links(p2, j2, c) implies p1
                == p2 && j1 == j2 by {
                if told.links(p1, j1, c) && told.links(p2, j2, c) {
                } else if !told.links(p1, j1, c) && !told.links(p2, j2, c) {
                } else if told.links(p1, j1, c) {
                    assert(c == id && told.child_at(p1, j1) < n0);
                    assert(false);
                } else {
                    assert(c == id && told.child_at(p2, j2) < n0);
                    assert(false);
                }
            }
            assert forall|p: int, c: int| 0 <= c < n0 implies (tnew.is_child(p, c)
                == told.is_child(p, c)) by {
                if tnew.is_child(p, c) {
                    let j = choose|j: int| tnew.links(p, j, c);
                    assert(told.links(p, j, c) || c == id);
                    assert(told.is_child(p, c));
                }
                if told.is_child(p, c) {
                    let j = choose|j: int| told.links(p, j, c);
                    assert(tnew.links(p, j, c));
                }
            }
        }
        id
    }
}

/// A child stands one level below its parent.
pub proof fn lemma_depth_child(t: Tree, p: int, c: int)
    requires
        t.wf(),
        t.is_child(p, c),
    ensures
        t.depth_of(c) == t.depth_of(p) + 1,
{
    let j0 = choose|j0: int| t.links(p, j0, c);
    assert(t.links(p, j0, c));
    assert(0 <= p < c);
    assert(t.has_parent(c));
    let (p2, j2) = choose|p2: int, j2: int| t.links(p2, j2, c);
    assert(t.links(p2, j2, c));
    assert(p2 == p);
}

/// A node's depth never exceeds its index.
pub proof fn lemma_depth_le(t: Tree, c: int)
    requires
        t.wf(),
        0 <= c < t.n(),
    ensures
        t.depth_of(c) <= c,
    decreases c,
{
    if c > 0 {
        assert(t.has_parent(c));
        let (p, j) = choose|p: int, j: int| t.links(p, j, c);
        assert(t.links(p, j, c));
        assert(0 <= p < c);
        lemma_depth_le(t, p);
        lemma_depth_child(t, p, c);
        assert(t.is_child(p, c));
    }
}

} // verus!
