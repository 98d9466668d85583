use crate::mcts::{settled, sound, Arena, MCTS};
use crate::tree::Tree;
use vstd::prelude::*;

verus! {

/// Index of the greatest key, the last one where several are greatest.
pub open spec fn last_max(keys: Seq<u64>) -> int
    decreases keys.len(),
{
    if keys.len() <= 1 {
        0
    } else {
        let earlier = last_max(keys.drop_last());
        if keys.last() >= keys[earlier] {
            keys.len() - 1
        } else {
            earlier
        }
    }
}

/// `last_max` names a greatest key, and every key after it is smaller.
pub proof fn lemma_last_max(keys: Seq<u64>)
    requires
        keys.len() > 0,
    ensures
        0 <= last_max(keys) < keys.len(),
        forall|j: int| 0 <= j < keys.len() ==> #[trigger] keys[j] <= keys[last_max(keys)],
        forall|j: int| last_max(keys) < j < keys.len() ==> #[trigger] keys[j] < keys[last_max(keys)],
    decreases keys.len(),
{
    if keys.len() > 1 {
        let front = keys.drop_last();
        lemma_last_max(front);
        assert forall|j: int| 0 <= j < keys.len() implies #[trigger] keys[j] <= keys[last_max(keys)] by {
            if j < front.len() {
                assert(front[j] == keys[j]);
            }
        }
        assert forall|j: int| last_max(keys) < j < keys.len() implies #[trigger] keys[j] < keys[last_max(keys)] by {
            if j < front.len() {
                assert(front[j] == keys[j]);
            }
        }
    }
}

/// The position of the greatest key in `keys`; of several greatest keys, the last.
pub fn last_max_index(keys: &Vec<u64>) -> (best: usize)
    requires
        keys.len() > 0,
    ensures
        best == last_max(keys@),
        best < keys.len(),
        forall|j: int| 0 <= j < keys.len() ==> #[trigger] keys[j] <= keys[best as int],
        forall|j: int| best < j < keys.len() ==> #[trigger] keys[j] < keys[best as int],
{
    let mut best: usize = 0;
    let mut j: usize = 1;
    assert(keys@.take(1).len() == 1);
    while j < keys.len()
        invariant
            1 <= j <= keys.len(),
            best < j,
            best == last_max(keys@.take(j as int)),
        decreases keys.len() - j,
    {
        assert(keys@.take(j + 1).drop_last() =~= keys@.take(j as int));
        if keys[j] >= keys[best] {
            best = j;
        }
        j += 1;
    }
    proof {
        assert(keys@.take(keys.len() as int) =~= keys@);
        lemma_last_max(keys@);
    }
    best
}

/// How the quotient `score / visits` ranks among all such quotients when
/// the division is carried out as on floating-point numbers: a negative
/// score over no visits is below every mean, a positive one above, and
/// nothing over nothing is above all of those.
pub open spec fn mean_class(score: int, visits: nat) -> int {
    if visits > 0 {
        1
    } else if score < 0 {
        0
    } else if score > 0 {
        2
    } else {
        3
    }
}

/// Whether the mean score of `a` is at most that of `b`. Each is a pair of
/// score and visits. Means of visited nodes are compared exactly.
pub open spec fn mean_le(a: (int, nat), b: (int, nat)) -> bool {
    let ca = mean_class(a.0, a.1);
    let cb = mean_class(b.0, b.1);
    ca < cb || (ca == cb && (ca != 1 || a.0 * b.1 <= b.0 * a.1))
}

/// Index of the greatest mean, the last one where several are greatest.
pub open spec fn last_best(tallies: Seq<(int, nat)>) -> int
    decreases tallies.len(),
{
    if tallies.len() <= 1 {
        0
    } else {
        let earlier = last_best(tallies.drop_last());
        if mean_le(tallies[earlier], tallies.last()) {
            tallies.len() - 1
        } else {
            earlier
        }
    }
}

/// Comparing means is transitive.
pub proof fn lemma_mean_le_transitive(a: (int, nat), b: (int, nat), c: (int, nat))
    requires
        mean_le(a, b),
        mean_le(b, c),
    ensures
        mean_le(a, c),
{
    if mean_class(a.0, a.1) == 1 && mean_class(b.0, b.1) == 1 && mean_class(c.0, c.1) == 1 {
        let (sa, va) = (a.0, a.1 as int);
        let (sb, vb) = (b.0, b.1 as int);
        let (sc, vc) = (c.0, c.1 as int);
        assert(sa * vc <= sc * va) by (nonlinear_arith)
            requires
                va > 0,
                vb > 0,
                vc > 0,
                sa * vb <= sb * va,
                sb * vc <= sc * vb,
        {
            assert(sa * vb * vc <= sb * va * vc);
            assert(sb * vc * va <= sc * vb * va);
            assert(sa * vc * vb <= sc * va * vb);
        }
    }
}

/// `last_best` names a greatest mean, and every mean after it is smaller.
pub proof fn lemma_last_best(tallies: Seq<(int, nat)>)
    requires
        tallies.len() > 0,
    ensures
        0 <= last_best(tallies) < tallies.len(),
        forall|j: int| 0 <= j < tallies.len() ==> mean_le(#[trigger] tallies[j], tallies[last_best(tallies)]),
        forall|j: int|
            last_best(tallies) < j < tallies.len() ==> !mean_le(
                tallies[last_best(tallies)],
                #[trigger] tallies[j],
            ),
    decreases tallies.len(),
{
    if tallies.len() > 1 {
        let front = tallies.drop_last();
        lemma_last_best(front);
        let e = last_best(front);
        let m = last_best(tallies);
        assert forall|j: int| 0 <= j < tallies.len() implies mean_le(#[trigger] tallies[j], tallies[m]) by {
            if j < front.len() {
                assert(front[j] == tallies[j]);
                assert(mean_le(tallies[j], tallies[e]));
                if m != e {
                    lemma_mean_le_transitive(tallies[j], tallies[e], tallies[m]);
                }
            }
        }
        assert forall|j: int| m < j < tallies.len() implies !mean_le(tallies[m], #[trigger] tallies[j]) by {
            if j < front.len() {
                assert(front[j] == tallies[j]);
            }
        }
    }
}

/// Whether the mean of `score_a` over `visits_a` is at most that of
/// `score_b` over `visits_b`.
pub fn mean_at_most(score_a: i32, visits_a: u32, score_b: i32, visits_b: u32) -> (le: bool)
    ensures
        le == mean_le((score_a as int, visits_a as nat), (score_b as int, visits_b as nat)),
{
    if visits_a > 0 && visits_b > 0 {
        let sa: i64 = score_a as i64;
        let sb: i64 = score_b as i64;
        let va: i64 = visits_a as i64;
        let vb: i64 = visits_b as i64;
        assert(-0x8000_0000_0000_0000 <= sa * vb < 0x8000_0000_0000_0000) by (nonlinear_arith)
            requires
                -0x8000_0000 <= sa < 0x8000_0000,
                0 < vb < 0x1_0000_0000,
        ;
        assert(-0x8000_0000_0000_0000 <= sb * va < 0x8000_0000_0000_0000) by (nonlinear_arith)
            requires
                -0x8000_0000 <= sb < 0x8000_0000,
                0 < va < 0x1_0000_0000,
        ;
        sa * vb <= sb * va
    } else {
        let ca: u8 = if visits_a > 0 { 1 } else if score_a < 0 { 0 } else if score_a > 0 { 2 } else { 3 };
        let cb: u8 = if visits_b > 0 { 1 } else if score_b < 0 { 0 } else if score_b > 0 { 2 } else { 3 };
        ca <= cb
    }
}

impl<P> Tree<P> {
    /// Score and visits of each child of `i`, in the order of the children.
    pub open spec fn child_tallies(self, i: int) -> Seq<(int, nat)> {
        Seq::new(
            self.nodes[i].children.len(),
            |j: int| (self.nodes[self.nodes[i].children[j]].score, self.nodes[self.nodes[i].children[j]].visits),
        )
    }

    /// The child of the root with the greatest mean score, the youngest of
    /// them where several have it.
    pub open spec fn favourite(self) -> int {
        self.nodes[0].children[last_best(self.child_tallies(0))]
    }
}

impl<T: MCTS> Arena<T> {
    /// The child of the root that the search recommends: the one with the
    /// greatest mean score, the youngest of them where several have it. A
    /// child that was never visited counts as greater than any visited one.
    pub fn proposed_node(&self) -> (best: usize)
        requires
            self@.wf(),
            !self@.is_leaf(0),
        ensures
            best == self@.favourite(),
            self@.nodes[0].children.contains(best as int),
    {
        proof {
            self@.lemma_favourite();
        }
        let root = &self[0];
        let ghost tallies = self@.child_tallies(0);
        let mut best: usize = 0;
        let mut j: usize = 1;
        assert(tallies.take(1).len() == 1);
        while j < root.children.len()
            invariant
                self@.wf(),
                root@ == self@.nodes[0],
                tallies == self@.child_tallies(0),
                1 <= j <= root.children.len(),
                best < j,
                best == last_best(tallies.take(j as int)),
            decreases root.children.len() - j,
        {
            assert(tallies.take(j + 1).drop_last() =~= tallies.take(j as int));
            proof {
                let held_id = self@.nodes[0].children[best as int];
                let next_id = self@.nodes[0].children[j as int];
                assert(self@.has(held_id) && self@.has(next_id));
                assert(root@.children[best as int] == root.children@[best as int]);
                assert(root@.children[j as int] == root.children@[j as int]);
                assert(tallies[best as int] == (self@.nodes[held_id].score, self@.nodes[held_id].visits));
                assert(tallies[j as int] == (self@.nodes[next_id].score, self@.nodes[next_id].visits));
            }
            let held_id = root.children[best];
            let next_id = root.children[j];
            assert(self@.has(held_id as int));
            assert(self@.has(next_id as int));
            let held = &self[held_id];
            let next = &self[next_id];
            if mean_at_most(held.score, held.visits, next.score, next.visits) {
                best = j;
            }
            j += 1;
        }
        proof {
            assert(tallies.take(tallies.len() as int) =~= tallies);
        }
        root.children[best]
    }
}

/// Whether `rank` can be called on the statistics of every node below a
/// visited parent: a score, the node's visits, and at least one visit of
/// the parent.
pub open spec fn ranks_all<F: Fn(i32, u32, u32) -> u64>(rank: F) -> bool {
    forall|score: i32, visits: u32, parent_visits: u32|
        parent_visits >= 1 ==> call_requires(rank, (score, visits, parent_visits))
}

/// Whether `key` is a result that `rank` can give for these statistics.
pub open spec fn ranks_as<F: Fn(i32, u32, u32) -> u64>(
    rank: F,
    score: int,
    visits: nat,
    parent_visits: nat,
    key: u64,
) -> bool {
    call_ensures(rank, (score as i32, visits as u32, parent_visits as u32), key)
}

/// Whether `rank` gives the same key whenever it is given the same statistics.
pub open spec fn deterministic<F: Fn(i32, u32, u32) -> u64>(rank: F) -> bool {
    forall|score: i32, visits: u32, parent_visits: u32, a: u64, b: u64|
        #[trigger] call_ensures(rank, (score, visits, parent_visits), a) && #[trigger] call_ensures(
            rank,
            (score, visits, parent_visits),
            b,
        ) ==> a == b
}

/// The key that `rank` gives for a score, a node's visits and its parent's visits.
pub open spec fn key_of<F: Fn(i32, u32, u32) -> u64>(rank: F) -> spec_fn(int, nat, nat) -> u64 {
    |score: int, visits: nat, parent_visits: nat|
        choose|key: u64| ranks_as(rank, score, visits, parent_visits, key)
}

impl<P> Tree<P> {
    /// The key of each child of `i`, in the order of the children.
    pub open spec fn child_keys(self, i: int, key: spec_fn(int, nat, nat) -> u64) -> Seq<u64> {
        Seq::new(
            self.nodes[i].children.len(),
            |j: int|
                key(
                    self.nodes[self.nodes[i].children[j]].score,
                    self.nodes[self.nodes[i].children[j]].visits,
                    self.nodes[i].visits,
                ),
        )
    }

    /// The child of `i` with the greatest key, the youngest of them where
    /// several have it.
    pub open spec fn selected_child(self, i: int, key: spec_fn(int, nat, nat) -> u64) -> int {
        self.nodes[i].children[last_max(self.child_keys(i, key))]
    }

    /// The leaf that the descent from `from` arrives at when it goes, at each
    /// node, to the selected child.
    pub open spec fn selected_leaf(self, from: int, key: spec_fn(int, nat, nat) -> u64) -> int
        decreases self.nodes.len() - from,
    {
        if self.has(from) && !self.is_leaf(from) {
            let next = self.selected_child(from, key);
            if from < next < self.nodes.len() {
                self.selected_leaf(next, key)
            } else {
                from
            }
        } else {
            from
        }
    }
}

/// Whether a descent that is at `from` can go on to `to`: `to` is the child
/// with the greatest key, the youngest of them where several have it, for
/// some keys that `rank` can give to the children of `from`.
pub open spec fn may_select<P, F: Fn(i32, u32, u32) -> u64>(
    tree: Tree<P>,
    rank: F,
    from: int,
    to: int,
) -> bool {
    exists|keys: Seq<u64>|
        {
            &&& keys.len() == tree.nodes[from].children.len()
            &&& keys.len() > 0
            &&& forall|j: int|
                0 <= j < keys.len() ==> ranks_as(
                    rank,
                    tree.nodes[tree.nodes[from].children[j]].score,
                    tree.nodes[tree.nodes[from].children[j]].visits,
                    tree.nodes[from].visits,
                    #[trigger] keys[j],
                )
            &&& to == tree.nodes[from].children[#[trigger] last_max(keys)]
        }
}

/// Whether `path` is a descent under `rank`: it begins at the root, and
/// each of its nodes is one that the descent can go on to from the node
/// before it.
pub open spec fn is_descent<P, F: Fn(i32, u32, u32) -> u64>(
    tree: Tree<P>,
    rank: F,
    path: Seq<int>,
) -> bool {
    &&& path.len() > 0
    &&& path[0] == 0
    &&& forall|k: int|
        0 <= k < path.len() - 1 ==> may_select(tree, rank, #[trigger] path[k], path[k + 1])
}

/// Whether a descent under `rank` can end at `leaf`.
pub open spec fn may_arrive_at<P, F: Fn(i32, u32, u32) -> u64>(
    tree: Tree<P>,
    rank: F,
    leaf: int,
) -> bool {
    tree.is_leaf(leaf) && exists|path: Seq<int>|
        #[trigger] is_descent(tree, rank, path) && path.last() == leaf
}

impl<P> Tree<P> {
    /// The favourite is a child of the root whose mean score none of the
    /// root's children exceeds, and every younger child has a smaller one.
    pub proof fn lemma_favourite(self)
        requires
            !self.is_leaf(0),
        ensures
            self.nodes[0].children.contains(self.favourite()),
            forall|j: int|
                0 <= j < self.nodes[0].children.len() ==> mean_le(
                    #[trigger] self.child_tallies(0)[j],
                    self.child_tallies(0)[last_best(self.child_tallies(0))],
                ),
            forall|j: int|
                last_best(self.child_tallies(0)) < j < self.nodes[0].children.len() ==> !mean_le(
                    self.child_tallies(0)[last_best(self.child_tallies(0))],
                    #[trigger] self.child_tallies(0)[j],
                ),
    {
        lemma_last_best(self.child_tallies(0));
    }
}

impl<T: MCTS> Arena<T> {
    /// The acquisition key of `node`, as `rank` computes it from the node's
    /// score and visits and the visits of its parent. The root has no such
    /// key, nor has a node whose parent was never visited.
    pub fn ucb1_of<F: Fn(i32, u32, u32) -> u64>(&self, node: usize, rank: &F) -> (key: u64)
        requires
            ranks_all(*rank),
            self@.has(node as int),
            self@.nodes[node as int].parent is Some,
            self@.has(self@.nodes[node as int].parent.unwrap()),
            self@.nodes[self@.nodes[node as int].parent.unwrap()].visits >= 1,
        ensures
            ranks_as(
                *rank,
                self@.nodes[node as int].score,
                self@.nodes[node as int].visits,
                self@.nodes[self@.nodes[node as int].parent.unwrap()].visits,
                key,
            ),
            deterministic(*rank) ==> key == key_of(*rank)(
                self@.nodes[node as int].score,
                self@.nodes[node as int].visits,
                self@.nodes[self@.nodes[node as int].parent.unwrap()].visits,
            ),
    {
        match self[node].parent {
            Some(parent) => {
                let parent_visits = self[parent].visits;
                rank(self[node].score, self[node].visits, parent_visits)
            },
            None => unreached(),
        }
    }

    /// The acquisition keys of the children of `node`, in their order.
    pub fn rank_children<F: Fn(i32, u32, u32) -> u64>(&self, node: usize, rank: &F) -> (keys: Vec<u64>)
        requires
            ranks_all(*rank),
            self@.wf(),
            self@.has(node as int),
            self@.nodes[node as int].visits >= 1,
        ensures
            keys.len() == self@.nodes[node as int].children.len(),
            forall|j: int|
                0 <= j < keys.len() ==> ranks_as(
                    *rank,
                    self@.nodes[self@.nodes[node as int].children[j]].score,
                    self@.nodes[self@.nodes[node as int].children[j]].visits,
                    self@.nodes[node as int].visits,
                    #[trigger] keys[j],
                ),
            deterministic(*rank) ==> keys@ == self@.child_keys(node as int, key_of(*rank)),
    {
        let parent = &self[node];
        let mut keys: Vec<u64> = Vec::new();
        let mut j: usize = 0;
        while j < parent.children.len()
            invariant
                ranks_all(*rank),
                self@.wf(),
                self@.has(node as int),
                parent@ == self@.nodes[node as int],
                parent@.visits >= 1,
                j <= parent.children.len(),
                keys.len() == j,
                forall|i: int|
                    0 <= i < j ==> ranks_as(
                        *rank,
                        self@.nodes[self@.nodes[node as int].children[i]].score,
                        self@.nodes[self@.nodes[node as int].children[i]].visits,
                        self@.nodes[node as int].visits,
                        #[trigger] keys[i],
                    ),
                deterministic(*rank) ==> keys@ == self@.child_keys(node as int, key_of(*rank)).take(
                    j as int,
                ),
            decreases parent.children.len() - j,
        {
            let child = parent.children[j];
            proof {
                assert(parent@.children[j as int] == parent.children@[j as int]);
                let c = self@.nodes[node as int].children[j as int];
                assert(self@.has(c) && self@.nodes[c].parent == Some(node as int));
            }
            let key = self.ucb1_of(child, rank);
            keys.push(key);
            proof {
                if deterministic(*rank) {
                    let all = self@.child_keys(node as int, key_of(*rank));
                    assert(keys@ =~= all.take(j + 1));
                }
            }
            j += 1;
        }
        proof {
            if deterministic(*rank) {
                let all = self@.child_keys(node as int, key_of(*rank));
                assert(all.take(all.len() as int) =~= all);
            }
        }
        keys
    }
}

impl<T: MCTS<MCTSState = T>> Arena<T> {
    /// Descends from the root, at each node to the child with the greatest
    /// acquisition key (the youngest of them on a tie), and returns the leaf
    /// at which the descent ends.
    pub fn determine_next_node<F: Fn(i32, u32, u32) -> u64>(&self, rank: &F) -> (leaf: usize)
        requires
            ranks_all(*rank),
            sound::<T>(self@),
        ensures
            self@.has(leaf as int),
            may_arrive_at(self@, *rank, leaf as int),
            deterministic(*rank) ==> leaf == self@.selected_leaf(0, key_of(*rank)),
    {
        let mut current: usize = 0;
        let ghost mut path: Seq<int> = seq![0int];
        while !self[current].is_leaf()
            invariant
                ranks_all(*rank),
                sound::<T>(self@),
                self@.has(current as int),
                is_descent(self@, *rank, path),
                path.last() == current,
                deterministic(*rank) ==> self@.selected_leaf(0, key_of(*rank)) == self@.selected_leaf(
                    current as int,
                    key_of(*rank),
                ),
            decreases self@.nodes.len() - current,
        {
            proof {
                assert(settled::<T>(self@, current as int));
            }
            let keys = self.rank_children(current, rank);
            let chosen = last_max_index(&keys);
            let node = &self[current];
            proof {
                assert(node@.children[chosen as int] == node.children@[chosen as int]);
                let next = self@.nodes[current as int].children[chosen as int];
                assert(current < next < self@.nodes.len());
                assert(chosen == last_max(keys@));
                assert(may_select(self@, *rank, current as int, next));
                let longer = path.push(next);
                assert forall|k: int| 0 <= k < longer.len() - 1 implies may_select(
                    self@,
                    *rank,
                    #[trigger] longer[k],
                    longer[k + 1],
                ) by {
                    if k < path.len() - 1 {
                        assert(longer[k] == path[k] && longer[k + 1] == path[k + 1]);
                    }
                }
                path = longer;
            }
            current = node.children[chosen];
        }
        current
    }
}

} // verus!
