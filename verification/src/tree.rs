use vstd::prelude::*;

verus! {

/// What a node of the search tree holds, as mathematical values.
pub struct NodeView<P> {
    pub id: int,
    pub parent: Option<int>,
    pub position: P,
    pub visits: nat,
    pub score: int,
    pub children: Seq<int>,
}

/// The search tree as a sequence of nodes, each found at the index that is its id.
pub struct Tree<P> {
    pub nodes: Seq<NodeView<P>>,
}

impl<P> NodeView<P> {
    /// A node that was just created: no statistics, no children.
    pub open spec fn fresh(id: int, parent: Option<int>, position: P) -> Self {
        NodeView { id, parent, position, visits: 0, score: 0, children: Seq::empty() }
    }

    /// The node after one more rollout with result `outcome` was credited to it.
    pub open spec fn credited(self, outcome: int) -> Self {
        NodeView { visits: self.visits + 1, score: self.score + outcome, ..self }
    }

    /// The node after `child` was linked in as its newest child.
    pub open spec fn adopting(self, child: int) -> Self {
        NodeView { children: self.children.push(child), ..self }
    }
}

impl<P> Tree<P> {
    /// The tree that holds nothing but a root.
    pub open spec fn sapling(position: P) -> Self {
        Tree { nodes: seq![NodeView::fresh(0, None, position)] }
    }

    /// The number of nodes.
    pub open spec fn len(self) -> nat {
        self.nodes.len()
    }

    /// Whether `i` is the id of a node of the tree.
    pub open spec fn has(self, i: int) -> bool {
        0 <= i < self.nodes.len()
    }

    /// Whether node `i` has no children.
    pub open spec fn is_leaf(self, i: int) -> bool {
        self.nodes[i].children.len() == 0
    }

    /// The shape every arena keeps: ids are indices, the root alone has no
    /// parent, a parent is older than its children, and parent and child links
    /// mirror each other.
    pub open spec fn wf(self) -> bool {
        &&& self.nodes.len() > 0
        &&& self.nodes[0].parent is None
        &&& forall|i: int| self.has(i) ==> (#[trigger] self.nodes[i]).id == i
        &&& forall|i: int|
            0 < i < self.nodes.len() ==> match (#[trigger] self.nodes[i]).parent {
                Some(p) => 0 <= p < i && self.nodes[p].children.contains(i),
                None => false,
            }
        &&& forall|i: int, k: int|
            self.has(i) && 0 <= k < self.nodes[i].children.len() ==> {
                let c = #[trigger] self.nodes[i].children[k];
                i < c < self.nodes.len() && self.nodes[c].parent == Some(i)
            }
        &&& forall|i: int, j: int, k: int|
            self.has(i) && 0 <= j < k < self.nodes[i].children.len()
                ==> #[trigger] self.nodes[i].children[j] < #[trigger] self.nodes[i].children[k]
    }

    /// The tree after a fresh node holding `position` was appended and linked
    /// in as the newest child of `parent`.
    pub open spec fn with_child(self, parent: int, position: P) -> Self {
        let id = self.nodes.len() as int;
        Tree {
            nodes: self.nodes.update(parent, self.nodes[parent].adopting(id)).push(
                NodeView::fresh(id, Some(parent), position),
            ),
        }
    }

    /// Appending a child keeps the shape.
    pub proof fn lemma_with_child_wf(self, parent: int, position: P)
        requires
            self.wf(),
            self.has(parent),
        ensures
            self.with_child(parent, position).wf(),
    {
        let t = self.with_child(parent, position);
        let id = self.nodes.len() as int;
        assert forall|i: int| 0 < i < t.nodes.len() implies match (#[trigger] t.nodes[i]).parent {
            Some(p) => 0 <= p < i && t.nodes[p].children.contains(i),
            None => false,
        } by {
            if i < id {
                let p = self.nodes[i].parent.unwrap();
                let k = choose|k: int|
                    0 <= k < self.nodes[p].children.len() && self.nodes[p].children[k] == i;
                assert(t.nodes[p].children[k] == i);
            } else {
                assert(t.nodes[parent].children[self.nodes[parent].children.len() as int] == id);
            }
        }
        assert forall|i: int, k: int| t.has(i) && 0 <= k < t.nodes[i].children.len() implies {
            let c = #[trigger] t.nodes[i].children[k];
            i < c < t.nodes.len() && t.nodes[c].parent == Some(i)
        } by {
            if i < id && k < self.nodes[i].children.len() {
                let c = self.nodes[i].children[k];
                assert(i < c < self.nodes.len());
            }
        }
        assert forall|i: int, j: int, k: int|
            t.has(i) && 0 <= j < k < t.nodes[i].children.len() implies #[trigger] t.nodes[i].children[j]
            < #[trigger] t.nodes[i].children[k] by {
            if i < id {
                if k < self.nodes[i].children.len() {
                } else {
                    let c = self.nodes[i].children[j];
                    assert(c < self.nodes.len());
                }
            }
        }
    }

    /// Number of parent links between `i` and the root.
    pub open spec fn depth(self, i: int) -> nat
        decreases i,
    {
        if 0 < i < self.nodes.len() {
            match self.nodes[i].parent {
                Some(p) => if 0 <= p < i {
                    1 + self.depth(p)
                } else {
                    0
                },
                None => 0,
            }
        } else {
            0
        }
    }

    /// The node reached from `i` by following parent links `steps` times. A
    /// node without a parent is where the walk stays.
    pub open spec fn ancestor(self, i: int, steps: nat) -> int
        decreases steps,
    {
        if steps == 0 {
            i
        } else {
            match self.nodes[i].parent {
                Some(p) => self.ancestor(p, (steps - 1) as nat),
                None => i,
            }
        }
    }

    /// Whether `a` is `i` itself or lies on the way from `i` up to the root.
    pub open spec fn on_path(self, a: int, i: int) -> bool
        decreases i,
    {
        a == i || (0 < i < self.nodes.len() && match self.nodes[i].parent {
            Some(p) => 0 <= p < i && self.on_path(a, p),
            None => false,
        })
    }

    /// The tree after `outcome` was credited to every node on the way from
    /// `node` up to the root whose id is at least `stop`, `node` itself left out.
    pub open spec fn propagated_down_to(self, node: int, outcome: int, stop: int) -> Self {
        Tree {
            nodes: Seq::new(
                self.nodes.len(),
                |a: int|
                    if a != node && a >= stop && self.on_path(a, node) {
                        self.nodes[a].credited(outcome)
                    } else {
                        self.nodes[a]
                    },
            ),
        }
    }

    /// The tree after `outcome` was credited to every proper ancestor of `node`.
    pub open spec fn propagated(self, node: int, outcome: int) -> Self {
        self.propagated_down_to(node, outcome, 0)
    }

    /// The tree after a rollout at `node` with result `outcome`: the node and
    /// each of its ancestors gain one visit and `outcome` in score.
    pub open spec fn rolled_out(self, node: int, outcome: int) -> Self {
        Tree {
            nodes: Seq::new(
                self.nodes.len(),
                |a: int|
                    if self.on_path(a, node) {
                        self.nodes[a].credited(outcome)
                    } else {
                        self.nodes[a]
                    },
            ),
        }
    }

    /// The tree after one child per entry of `positions` was appended to
    /// `parent`, in order.
    pub open spec fn with_children(self, parent: int, positions: Seq<P>) -> Self
        decreases positions.len(),
    {
        if positions.len() == 0 {
            self
        } else {
            self.with_children(parent, positions.drop_last()).with_child(parent, positions.last())
        }
    }

    /// Two trees with the same nodes, links and positions; statistics may differ.
    pub open spec fn same_shape(self, other: Self) -> bool {
        &&& self.nodes.len() == other.nodes.len()
        &&& forall|i: int|
            self.has(i) ==> {
                &&& (#[trigger] self.nodes[i]).id == other.nodes[i].id
                &&& self.nodes[i].parent == other.nodes[i].parent
                &&& self.nodes[i].position == other.nodes[i].position
                &&& self.nodes[i].children == other.nodes[i].children
            }
    }

    /// Every node but the root has a parent, and following parent links from
    /// any node arrives at the root after `depth` steps: no more steps than
    /// the node's id, and no node before the last one is the root.
    pub proof fn lemma_parents_lead_to_root(self, i: int)
        requires
            self.wf(),
            self.has(i),
        ensures
            i != 0 ==> self.nodes[i].parent is Some,
            self.depth(i) <= i,
            self.ancestor(i, self.depth(i)) == 0,
            forall|k: nat| k < self.depth(i) ==> self.ancestor(i, k) != 0,
        decreases i,
    {
        if i > 0 {
            let p = self.nodes[i].parent.unwrap();
            self.lemma_parents_lead_to_root(p);
            assert forall|k: nat| k < self.depth(i) implies self.ancestor(i, k) != 0 by {
                if k > 0 {
                    assert(self.ancestor(i, k) == self.ancestor(p, (k - 1) as nat));
                }
            }
        }
    }

    /// A node on the way up from `i` is no younger than `i`.
    pub proof fn lemma_on_path_bounds(self, a: int, i: int)
        requires
            self.has(i),
            self.on_path(a, i),
        ensures
            0 <= a <= i,
        decreases i,
    {
        if a != i {
            self.lemma_on_path_bounds(a, self.nodes[i].parent.unwrap());
        }
    }

    /// The root lies on the way up from every node.
    pub proof fn lemma_root_on_path(self, i: int)
        requires
            self.wf(),
            self.has(i),
        ensures
            self.on_path(0, i),
        decreases i,
    {
        if i > 0 {
            self.lemma_root_on_path(self.nodes[i].parent.unwrap());
        }
    }

    /// The parent of a node on the way up from `i` lies on that way too.
    pub proof fn lemma_on_path_parent(self, b: int, i: int)
        requires
            self.wf(),
            self.has(i),
            self.on_path(b, i),
            b > 0,
        ensures
            self.on_path(self.nodes[b].parent.unwrap(), i),
        decreases i,
    {
        self.lemma_on_path_bounds(b, i);
        let p = self.nodes[b].parent.unwrap();
        if b == i {
            assert(self.on_path(p, p));
        } else {
            self.lemma_on_path_parent(b, self.nodes[i].parent.unwrap());
        }
    }

    /// The way up from a node is a chain: of two nodes on it, the older lies
    /// on the way up from the parent of the younger.
    pub proof fn lemma_path_is_a_chain(self, a: int, b: int, i: int)
        requires
            self.wf(),
            self.has(i),
            self.on_path(a, i),
            self.on_path(b, i),
            a < b,
        ensures
            self.on_path(a, self.nodes[b].parent.unwrap()),
        decreases i,
    {
        self.lemma_on_path_bounds(a, i);
        self.lemma_on_path_bounds(b, i);
        if b != i {
            let p = self.nodes[i].parent.unwrap();
            self.lemma_on_path_bounds(b, p);
            self.lemma_path_is_a_chain(a, b, p);
        }
    }

    /// Trees of the same shape have the same ways up.
    pub proof fn lemma_same_shape_path(self, other: Self, a: int, i: int)
        requires
            self.same_shape(other),
        ensures
            self.on_path(a, i) == other.on_path(a, i),
        decreases i,
    {
        if a != i && 0 < i < self.nodes.len() {
            match self.nodes[i].parent {
                Some(p) => {
                    if 0 <= p < i {
                        self.lemma_same_shape_path(other, a, p);
                    }
                },
                None => {},
            }
        }
    }

    /// The shape does not depend on the statistics.
    pub proof fn lemma_same_shape_wf(self, other: Self)
        requires
            self.wf(),
            self.same_shape(other),
        ensures
            other.wf(),
    {
        assert forall|i: int| 0 < i < other.nodes.len() implies match (#[trigger] other.nodes[i]).parent {
            Some(p) => 0 <= p < i && other.nodes[p].children.contains(i),
            None => false,
        } by {
            let p = self.nodes[i].parent.unwrap();
            assert(self.nodes[p].children == other.nodes[p].children);
        }
        assert forall|i: int, k: int| other.has(i) && 0 <= k < other.nodes[i].children.len() implies {
            let c = #[trigger] other.nodes[i].children[k];
            i < c < other.nodes.len() && other.nodes[c].parent == Some(i)
        } by {
            let c = self.nodes[i].children[k];
            assert(i < c < self.nodes.len());
        }
        assert forall|i: int, j: int, k: int|
            other.has(i) && 0 <= j < k < other.nodes[i].children.len() implies #[trigger] other.nodes[i].children[j]
            < #[trigger] other.nodes[i].children[k] by {
            assert(self.nodes[i].children[j] < self.nodes[i].children[k]);
        }
    }

    /// A root without children is alone in its tree.
    pub proof fn lemma_leaf_root_is_alone(self)
        requires
            self.wf(),
            self.is_leaf(0),
        ensures
            self.nodes.len() == 1,
    {
        if self.nodes.len() > 1 {
            let p = self.nodes[1].parent.unwrap();
            assert(self.nodes[p].children.contains(1));
        }
    }

    /// What appending children changes: the tree grows by their number, the
    /// parent gains as many children, and nothing else about the nodes that
    /// were there differs.
    pub proof fn lemma_with_children(self, parent: int, positions: Seq<P>)
        requires
            self.has(parent),
        ensures
            self.with_children(parent, positions).nodes.len() == self.nodes.len() + positions.len(),
            self.with_children(parent, positions).nodes[parent].children.len()
                == self.nodes[parent].children.len() + positions.len(),
            forall|i: int|
                self.has(i) ==> {
                    let after = #[trigger] self.with_children(parent, positions).nodes[i];
                    &&& after.id == self.nodes[i].id
                    &&& after.parent == self.nodes[i].parent
                    &&& after.position == self.nodes[i].position
                    &&& after.visits == self.nodes[i].visits
                    &&& after.score == self.nodes[i].score
                    &&& i != parent ==> after.children == self.nodes[i].children
                },
        decreases positions.len(),
    {
        if positions.len() > 0 {
            self.lemma_with_children(parent, positions.drop_last());
        }
    }
}

} // verus!
