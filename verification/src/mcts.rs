use crate::algorithm::{plausible, searched, stepped};
use crate::selection::{deterministic, key_of, may_arrive_at, ranks_all};
use crate::tree::{NodeView, Tree};
use vstd::prelude::*;

verus! {

/// The capabilities a game state must offer to be searched.
///
/// Every contract is stated over the state's view, its *position*. The
/// ghost functions describe the rules of the game; the executable methods
/// must follow them.
pub trait MCTS: Sized + View + Clone {
    /// A move of the game.
    type MCTSMove: Clone;

    /// The state that a move leads to; it stands for a position as `Self` does.
    type MCTSState: View<V = Self::V>;

    /// Positions the game can actually be in.
    spec fn valid(pos: Self::V) -> bool;

    /// The moves available in a position, in the order `legal_moves` lists them.
    spec fn moves(pos: Self::V) -> Seq<Self::MCTSMove>;

    /// The position reached by playing `gm`.
    spec fn successor(pos: Self::V, gm: Self::MCTSMove) -> Self::V;

    /// The move that led to a position, if one was played.
    spec fn arrival(pos: Self::V) -> Option<Self::MCTSMove>;

    /// Whether play has ended.
    spec fn finished(pos: Self::V) -> bool;

    /// Largest absolute value `terminate` may return.
    spec fn outcome_bound() -> nat;

    /// A clone stands for the same position.
    proof fn lemma_clone_keeps_position(a: &Self, b: &Self)
        requires
            cloned::<Self>(*a, *b),
        ensures
            a@ == b@,
    ;

    /// Playing a legal move leads to a valid position, and the move that
    /// this position reports as the one that led to it was legal where it
    /// was played.
    proof fn lemma_successor(pos: Self::V, gm: Self::MCTSMove)
        requires
            Self::valid(pos),
            Self::moves(pos).contains(gm),
        ensures
            Self::valid(Self::successor(pos, gm)),
            Self::arrival(Self::successor(pos, gm)) is Some,
            Self::moves(pos).contains(Self::arrival(Self::successor(pos, gm)).unwrap()),
    ;

    /// The state after the move `gm`, which must be legal.
    fn exec_move(self, gm: Self::MCTSMove) -> (next: Self::MCTSState)
        requires
            Self::valid(self@),
            Self::moves(self@).contains(gm),
        ensures
            next@ == Self::successor(self@, gm),
    ;

    /// All moves that can be made from this state; there may be none.
    fn legal_moves(&self) -> (list: Vec<Self::MCTSMove>)
        requires
            Self::valid(self@),
        ensures
            list@ == Self::moves(self@),
    ;

    /// The move that led to this state. A state that no move led to has none.
    fn last_move(&self) -> (gm: Self::MCTSMove)
        requires
            Self::valid(self@),
            Self::arrival(self@) is Some,
        ensures
            Self::arrival(self@) == Some(gm),
    ;

    /// One of the legal moves, picked at random.
    fn random_move(&self) -> (gm: Self::MCTSMove)
        requires
            Self::valid(self@),
            Self::moves(self@).len() > 0,
        ensures
            Self::moves(self@).contains(gm),
    ;

    /// Plays the game from this state to an end with random moves and
    /// returns what the end is worth.
    fn terminate(&self) -> (outcome: i32)
        requires
            Self::valid(self@),
        ensures
            -Self::outcome_bound() <= outcome <= Self::outcome_bound(),
    ;

    /// Whether no further move should be made from this state.
    fn is_terminal(&self) -> (over: bool)
        requires
            Self::valid(self@),
        ensures
            over == Self::finished(self@),
    ;
}

/// A vertex of the search tree.
#[derive(Debug)]
pub struct Node<T: MCTS> {
    pub id: usize,
    pub parent: Option<usize>,
    pub game_state: T,
    pub visits: u32,
    pub score: i32,
    pub children: Vec<usize>,
}

/// The owner of every node of one search, each stored at the index that is its id.
#[derive(Debug)]
pub struct Arena<T: MCTS> {
    nodes: Vec<Node<T>>,
}

impl<T: MCTS> View for Node<T> {
    type V = NodeView<T::V>;

    open spec fn view(&self) -> NodeView<T::V> {
        NodeView {
            id: self.id as int,
            parent: match self.parent {
                Some(p) => Some(p as int),
                None => None,
            },
            position: self.game_state@,
            visits: self.visits as nat,
            score: self.score as int,
            children: self.children@.map_values(|c: usize| c as int),
        }
    }
}

impl<T: MCTS> View for Arena<T> {
    type V = Tree<T::V>;

    closed spec fn view(&self) -> Tree<T::V> {
        Tree { nodes: self.nodes@.map_values(|n: Node<T>| n@) }
    }
}

impl<T: MCTS> Node<T> {
    /// Whether the node has no children.
    pub fn is_leaf(&self) -> (leaf: bool)
        ensures
            leaf == (self@.children.len() == 0),
    {
        self.children.len() == 0
    }

    /// A root that stands for `gs`: no parent, no statistics, no children.
    pub fn new_root_with_game_state(gs: &T) -> (root: Node<T>)
        ensures
            root@ == NodeView::fresh(0, None, gs@),
    {
        let game_state = gs.clone();
        proof {
            T::lemma_clone_keeps_position(gs, &game_state);
        }
        let root = Node { id: 0, parent: None, game_state, visits: 0, score: 0, children: Vec::new() };
        assert(root@.children =~= Seq::empty());
        root
    }
}

impl<T: MCTS> Arena<T> {
    /// The node stored under `id`.
    pub fn get(&self, id: usize) -> (node: &Node<T>)
        requires
            self@.has(id as int),
        ensures
            node@ == self@.nodes[id as int],
    {
        &self.nodes[id]
    }

    /// The node stored under `id`, for changing it in place.
    pub fn get_mut(&mut self, id: usize) -> (node: &mut Node<T>)
        requires
            old(self)@.has(id as int),
        ensures
            node@ == old(self)@.nodes[id as int],
            final(self)@.nodes == old(self)@.nodes.update(id as int, final(node)@),
    {
        &mut self.nodes[id]
    }

    /// A node with the id `child_id` that holds `gs` below `parent`, not yet
    /// stored or linked in.
    pub fn new_child_with_game_state(&self, parent: usize, child_id: usize, gs: T) -> (child: Node<T>)
        ensures
            child@ == NodeView::fresh(child_id as int, Some(parent as int), gs@),
    {
        let child = Node {
            id: child_id,
            parent: Some(parent),
            game_state: gs,
            visits: 0,
            score: 0,
            children: Vec::new(),
        };
        assert(child@.children =~= Seq::empty());
        child
    }

    /// An arena that holds only a root, which stands for `gs`.
    pub fn new_arena_with_game_state(gs: &T) -> (arena: Self)
        ensures
            arena@ == Tree::sapling(gs@),
            arena@.wf(),
            T::valid(gs@) ==> sound::<T>(arena@),
    {
        let mut nodes = Vec::new();
        nodes.push(Node::new_root_with_game_state(gs));
        let arena = Arena { nodes };
        proof {
            assert(arena@.nodes =~= Tree::sapling(gs@).nodes);
            if T::valid(gs@) {
                lemma_sapling_sound::<T>(gs@);
            }
        }
        arena
    }

    /// The id that the next node will get: the number of nodes so far.
    pub fn next_id(&self) -> (id: usize)
        ensures
            id == self@.len(),
    {
        self.nodes.len()
    }

    /// Appends a node that holds `gs` and links it in as the newest child of
    /// `parent`. Nothing is checked against the moves of the parent's state.
    pub fn child_from_node_with_game_state(&mut self, parent: usize, gs: T)
        requires
            old(self)@.wf(),
            old(self)@.has(parent as int),
        ensures
            final(self)@ == old(self)@.with_child(parent as int, gs@),
            final(self)@.wf(),
    {
        let child_id = self.next_id();
        self.nodes[parent].children.push(child_id);
        let child = self.new_child_with_game_state(parent, child_id, gs);
        self.nodes.push(child);
        proof {
            let t = old(self)@.with_child(parent as int, gs@);
            assert(self@.nodes[parent as int].children =~= t.nodes[parent as int].children);
            assert(self@.nodes =~= t.nodes);
            old(self)@.lemma_with_child_wf(parent as int, gs@);
        }
    }
}

impl<T: MCTS> vstd::std_specs::core::IndexSpecImpl<usize> for Arena<T> {
    open spec fn index_req(&self, index: &usize) -> bool {
        self@.has(*index as int)
    }
}

impl<T: MCTS> core::ops::Index<usize> for Arena<T> {
    type Output = Node<T>;

    fn index(&self, index: usize) -> (node: &Node<T>)
        ensures
            node@ == self@.nodes[index as int],
    {
        &self.nodes[index]
    }
}

/// The positions one move away from `pos`, in the order of its moves.
pub open spec fn successors<T: MCTS>(pos: T::V) -> Seq<T::V> {
    T::moves(pos).map_values(|gm: T::MCTSMove| T::successor(pos, gm))
}

/// Node `i` has exactly `k` children, and they hold the positions that the
/// first `k` moves of its own position lead to, in that order.
pub open spec fn grown<T: MCTS>(tree: Tree<T::V>, i: int, k: int) -> bool {
    let pos = tree.nodes[i].position;
    &&& tree.nodes[i].children.len() == k
    &&& k <= T::moves(pos).len()
    &&& forall|j: int|
        0 <= j < k ==> tree.nodes[#[trigger] tree.nodes[i].children[j]].position == T::successor(
            pos,
            T::moves(pos)[j],
        )
}

/// Node `i` is either a leaf or fully expanded: visited, not at the end of
/// the game, and with one child for each of its moves.
pub open spec fn settled<T: MCTS>(tree: Tree<T::V>, i: int) -> bool {
    let pos = tree.nodes[i].position;
    tree.is_leaf(i) || (tree.nodes[i].visits >= 1 && !T::finished(pos) && grown::<T>(
        tree,
        i,
        T::moves(pos).len() as int,
    ))
}

/// What holds of the statistics and positions of every node during a search.
pub open spec fn steady<T: MCTS>(tree: Tree<T::V>) -> bool {
    &&& tree.wf()
    &&& forall|i: int| tree.has(i) ==> T::valid((#[trigger] tree.nodes[i]).position)
    &&& forall|i: int| tree.has(i) ==> (#[trigger] tree.nodes[i]).visits <= tree.nodes[0].visits
    &&& forall|i: int|
        tree.has(i) ==> {
            let n = #[trigger] tree.nodes[i];
            -(n.visits * T::outcome_bound()) <= n.score <= n.visits * T::outcome_bound()
        }
}

/// The invariant of a search: the tree is well shaped, its statistics are
/// within their bounds, and every node is a leaf or fully expanded.
pub open spec fn sound<T: MCTS>(tree: Tree<T::V>) -> bool {
    &&& steady::<T>(tree)
    &&& forall|i: int| tree.has(i) ==> #[trigger] settled::<T>(tree, i)
}

/// The invariant while `node` is being expanded and has its first `k` children.
pub open spec fn growing<T: MCTS>(tree: Tree<T::V>, node: int, k: int) -> bool {
    &&& steady::<T>(tree)
    &&& forall|i: int| tree.has(i) && i != node ==> #[trigger] settled::<T>(tree, i)
    &&& tree.has(node)
    &&& tree.nodes[node].visits >= 1
    &&& !T::finished(tree.nodes[node].position)
    &&& grown::<T>(tree, node, k)
}

/// Whether one more rollout can be credited without leaving the range of
/// the counters.
pub open spec fn has_room<T: MCTS>(tree: Tree<T::V>) -> bool {
    &&& tree.nodes[0].visits < i32::MAX
    &&& (tree.nodes[0].visits + 1) * T::outcome_bound() <= i32::MAX
}

/// Whether `outcome` is a result that `terminate` can give for a state that
/// stands for `pos`. Such a result is within the bound of the game.
pub open spec fn may_end<T: MCTS>(pos: T::V, outcome: int) -> bool {
    &&& -T::outcome_bound() <= outcome <= T::outcome_bound()
    &&& exists|state: T, result: i32|
        state@ == pos && result == outcome && #[trigger] call_ensures(
            T::terminate,
            (&state,),
            result,
        )
}

/// What one step of the search does to the tree once the descent has
/// arrived at the leaf `node`: a rollout with some outcome within the bound
/// if the leaf was never visited or the game is over there, else an expansion.
pub open spec fn advanced<T: MCTS>(before: Tree<T::V>, node: int, after: Tree<T::V>) -> bool {
    let pos = before.nodes[node].position;
    if before.nodes[node].visits == 0 || T::finished(pos) {
        exists|outcome: int|
            may_end::<T>(pos, outcome) && after == #[trigger] before.rolled_out(node, outcome)
    } else {
        after == before.with_children(node, successors::<T>(pos))
    }
}

/// Crediting one more outcome keeps a score within its bound and within the
/// range of the counter.
pub proof fn lemma_credit_in_bounds(visits: nat, top: nat, bound: nat, score: int, outcome: int)
    requires
        visits <= top,
        -(visits * bound) <= score <= visits * bound,
        -bound <= outcome <= bound,
        (top + 1) * bound <= i32::MAX,
    ensures
        i32::MIN <= score + outcome <= i32::MAX,
        -((visits + 1) * bound) <= score + outcome <= (visits + 1) * bound,
{
    assert((visits + 1) * bound == visits * bound + bound) by (nonlinear_arith);
    assert((visits + 1) * bound <= (top + 1) * bound) by (nonlinear_arith)
        requires
            visits <= top,
    ;
}

/// A rollout keeps the invariant of the search.
pub proof fn lemma_rolled_out_sound<T: MCTS>(tree: Tree<T::V>, node: int, outcome: int)
    requires
        sound::<T>(tree),
        tree.has(node),
        -T::outcome_bound() <= outcome <= T::outcome_bound(),
    ensures
        sound::<T>(tree.rolled_out(node, outcome)),
        tree.same_shape(tree.rolled_out(node, outcome)),
{
    let after = tree.rolled_out(node, outcome);
    assert(tree.same_shape(after));
    tree.lemma_same_shape_wf(after);
    tree.lemma_root_on_path(node);
    assert forall|i: int| after.has(i) implies {
        let n = #[trigger] after.nodes[i];
        -(n.visits * T::outcome_bound()) <= n.score <= n.visits * T::outcome_bound()
    } by {
        let b = T::outcome_bound();
        let v = tree.nodes[i].visits;
        assert((v + 1) * b == v * b + b) by (nonlinear_arith);
    }
    assert forall|i: int| after.has(i) implies #[trigger] settled::<T>(after, i) by {
        assert(settled::<T>(tree, i));
        if !tree.is_leaf(i) {
            let pos = tree.nodes[i].position;
            assert forall|j: int| 0 <= j < T::moves(pos).len() implies after.nodes[#[trigger] after.nodes[i].children[j]].position
                == T::successor(pos, T::moves(pos)[j]) by {
                let c = tree.nodes[i].children[j];
                assert(tree.has(c));
            }
        }
    }
}

/// Giving an expanding node its next child keeps the invariant of the expansion.
pub proof fn lemma_growing_step<T: MCTS>(tree: Tree<T::V>, node: int, k: int)
    requires
        growing::<T>(tree, node, k),
        0 <= k < T::moves(tree.nodes[node].position).len(),
    ensures
        growing::<T>(
            tree.with_child(
                node,
                T::successor(tree.nodes[node].position, T::moves(tree.nodes[node].position)[k]),
            ),
            node,
            k + 1,
        ),
{
    let pos = tree.nodes[node].position;
    let gm = T::moves(pos)[k];
    let after = tree.with_child(node, T::successor(pos, gm));
    let id = tree.nodes.len() as int;
    tree.lemma_with_child_wf(node, T::successor(pos, gm));
    assert(T::valid(tree.nodes[node].position));
    assert(T::moves(pos).contains(gm));
    T::lemma_successor(pos, gm);
    assert forall|i: int| after.has(i) implies T::valid((#[trigger] after.nodes[i]).position) by {
        if i < id {
            assert(T::valid(tree.nodes[i].position));
        }
    }
    assert forall|i: int| after.has(i) implies (#[trigger] after.nodes[i]).visits
        <= after.nodes[0].visits by {
        if i < id {
            assert(tree.nodes[i].visits <= tree.nodes[0].visits);
        }
    }
    assert forall|i: int| after.has(i) implies {
        let n = #[trigger] after.nodes[i];
        -(n.visits * T::outcome_bound()) <= n.score <= n.visits * T::outcome_bound()
    } by {
        if i < id {
            let n = tree.nodes[i];
            assert(-(n.visits * T::outcome_bound()) <= n.score <= n.visits * T::outcome_bound());
        } else {
            assert(0 * T::outcome_bound() == 0) by (nonlinear_arith);
        }
    }
    assert forall|i: int| after.has(i) && i != node implies #[trigger] settled::<T>(after, i) by {
        if i < id {
            assert(settled::<T>(tree, i));
            if !tree.is_leaf(i) {
                let p = tree.nodes[i].position;
                assert forall|j: int| 0 <= j < T::moves(p).len() implies after.nodes[#[trigger] after.nodes[i].children[j]].position
                    == T::successor(p, T::moves(p)[j]) by {
                    let c = tree.nodes[i].children[j];
                    assert(tree.has(c));
                }
            }
        }
    }
    assert forall|j: int| 0 <= j < k + 1 implies after.nodes[#[trigger] after.nodes[node].children[j]].position
        == T::successor(pos, T::moves(pos)[j]) by {
        if j < k {
            let c = tree.nodes[node].children[j];
            assert(tree.has(c));
        }
    }
}

/// A tree that holds only the root of a valid position meets the invariant
/// of the search.
pub proof fn lemma_sapling_sound<T: MCTS>(pos: T::V)
    requires
        T::valid(pos),
    ensures
        sound::<T>(Tree::sapling(pos)),
{
    let tree = Tree::sapling(pos);
    assert(0 * T::outcome_bound() == 0) by (nonlinear_arith);
    assert forall|i: int| tree.has(i) implies #[trigger] settled::<T>(tree, i) by {
        assert(tree.is_leaf(i));
    }
}

/// Expansion is all or nothing: in a tree that meets the invariant of the
/// search a node has no child at all, or exactly one for each move of its
/// position, and these hold the positions that the moves lead to.
pub proof fn lemma_expansion_is_all_or_nothing<T: MCTS>(tree: Tree<T::V>, i: int)
    requires
        sound::<T>(tree),
        tree.has(i),
    ensures
        tree.nodes[i].children.len() == 0 || tree.nodes[i].children.len() == T::moves(
            tree.nodes[i].position,
        ).len(),
        forall|j: int|
            0 <= j < tree.nodes[i].children.len() ==> tree.nodes[#[trigger] tree.nodes[i].children[j]].position
                == T::successor(tree.nodes[i].position, T::moves(tree.nodes[i].position)[j]),
{
    assert(settled::<T>(tree, i));
}

/// Two searches from the same position, under the same keys and for the
/// same number of steps, whose rollouts end alike, build the same tree and
/// recommend the same move.
pub proof fn lemma_search_is_repeatable<T: MCTS>(
    pos: T::V,
    key: spec_fn(int, nat, nat) -> u64,
    first: Seq<int>,
    second: Seq<int>,
)
    requires
        first.len() == second.len(),
        forall|k: int| 0 <= k < first.len() ==> first[k] == second[k],
    ensures
        searched::<T>(Tree::sapling(pos), key, first) == searched::<T>(
            Tree::sapling(pos),
            key,
            second,
        ),
        recommended::<T>(searched::<T>(Tree::sapling(pos), key, first)) == recommended::<T>(
            searched::<T>(Tree::sapling(pos), key, second),
        ),
{
    assert(first =~= second);
}

/// The move that the search recommends once it has built `tree`: the one
/// that led to the favourite child of the root.
pub open spec fn recommended<T: MCTS>(tree: Tree<T::V>) -> Option<T::MCTSMove> {
    T::arrival(tree.nodes[tree.favourite()].position)
}

/// Searches from `gs` for `n` steps and returns the move that leads to the
/// child of the root with the greatest mean score.
///
/// The descent of each step follows the keys that `rank` gives for a
/// node's score, its visits and the visits of its parent. The first step
/// rolls out the root and the second expands it, so a search needs two
/// steps and a state from which a move can be made. The scores must have
/// room for `n` outcomes.
///
/// The move is always a legal one. Where `rank` gives the same key whenever
/// it is given the same numbers, the move depends on nothing but the
/// results of the rollouts: it is the one that `recommended` names in the
/// tree that `searched` builds from them.
pub fn sim<T, F>(gs: &T, n: i32, rank: F) -> (gm: T::MCTSMove)
    where
        T: Clone + MCTS<MCTSState = T>,
        F: Fn(i32, u32, u32) -> u64,
    requires
        ranks_all(rank),
        T::valid(gs@),
        !T::finished(gs@),
        T::moves(gs@).len() > 0,
        n >= 2,
        n * T::outcome_bound() <= i32::MAX,
    ensures
        T::moves(gs@).contains(gm),
        deterministic(rank) ==> exists|outcomes: Seq<int>|
            {
                &&& outcomes.len() == n
                &&& plausible::<T>(Tree::sapling(gs@), key_of(rank), outcomes)
                &&& #[trigger] recommended::<T>(
                    searched::<T>(Tree::sapling(gs@), key_of(rank), outcomes),
                ) == Some(gm)
            },
{
    let mut arena = Arena::new_arena_with_game_state(gs);
    let ghost mut outcomes: Seq<int> = Seq::empty();
    for i in 0..n
        invariant
            ranks_all(rank),
            n * T::outcome_bound() <= i32::MAX,
            !T::finished(gs@),
            T::moves(gs@).len() > 0,
            sound::<T>(arena@),
            arena@.nodes[0].position == gs@,
            arena@.nodes[0].visits <= i,
            i == 0 ==> arena@.is_leaf(0) && arena@.nodes[0].visits == 0,
            i == 1 ==> arena@.is_leaf(0) && arena@.nodes[0].visits == 1,
            i >= 2 ==> !arena@.is_leaf(0),
            outcomes.len() == i,
            deterministic(rank) ==> arena@ == searched::<T>(
                Tree::sapling(gs@),
                key_of(rank),
                outcomes,
            ),
            deterministic(rank) ==> plausible::<T>(Tree::sapling(gs@), key_of(rank), outcomes),
    {
        let ghost before = arena@;
        proof {
            let b = T::outcome_bound();
            let v = before.nodes[0].visits;
            assert((v + 1) * b <= n * b) by (nonlinear_arith)
                requires
                    v + 1 <= n,
            ;
        }
        arena.iterate_once(&rank);
        proof {
            let after = arena@;
            let leaf = choose|leaf: int|
                {
                    &&& before.has(leaf)
                    &&& may_arrive_at(before, rank, leaf)
                    &&& #[trigger] advanced::<T>(before, leaf, after)
                    &&& deterministic(rank) ==> leaf == before.selected_leaf(0, key_of(rank))
                };
            let pos = before.nodes[leaf].position;
            if i < 2 {
                before.lemma_leaf_root_is_alone();
            }
            let ghost outcome: int;
            if before.nodes[leaf].visits == 0 || T::finished(pos) {
                outcome = choose|outcome: int|
                    may_end::<T>(pos, outcome) && after == #[trigger] before.rolled_out(
                        leaf,
                        outcome,
                    );
                before.lemma_root_on_path(leaf);
            } else {
                outcome = 0;
                before.lemma_with_children(leaf, successors::<T>(pos));
            }
            let longer = outcomes.push(outcome);
            assert(longer.drop_last() =~= outcomes);
            if deterministic(rank) {
                assert(after == stepped::<T>(before, key_of(rank), outcome));
                assert(plausible::<T>(Tree::sapling(gs@), key_of(rank), longer));
            }
            outcomes = longer;
        }
    }
    let proposed_node = arena.proposed_node();
    proof {
        let tree = arena@;
        let j = choose|j: int|
            0 <= j < tree.nodes[0].children.len() && tree.nodes[0].children[j] == proposed_node;
        assert(settled::<T>(tree, 0));
        let child = tree.nodes[0].children[j];
        assert(tree.has(child));
        assert(T::moves(gs@).contains(T::moves(gs@)[j]));
        T::lemma_successor(gs@, T::moves(gs@)[j]);
    }
    let gm = arena[proposed_node].game_state.last_move();
    proof {
        if deterministic(rank) {
            assert(recommended::<T>(searched::<T>(Tree::sapling(gs@), key_of(rank), outcomes))
                == Some(gm));
        }
    }
    gm
}

} // verus!
