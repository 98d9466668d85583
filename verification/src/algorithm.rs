use crate::mcts::{
    advanced, growing, has_room, may_end, lemma_credit_in_bounds, lemma_growing_step,
    lemma_rolled_out_sound, sound, successors, Arena, MCTS,
};
use crate::selection::{deterministic, key_of, may_arrive_at, ranks_all};
use crate::tree::Tree;
use vstd::prelude::*;

verus! {

impl<T: MCTS<MCTSState = T>> Arena<T> {
    /// Credits `game_score` and one visit to every proper ancestor of `node`,
    /// from its parent up to the root.
    pub fn propagate_from(&mut self, node: usize, game_score: i32)
        requires
            old(self)@.wf(),
            old(self)@.has(node as int),
            forall|a: int|
                old(self)@.has(a) && a != node && old(self)@.on_path(a, node as int) ==> {
                    &&& (#[trigger] old(self)@.nodes[a]).visits < u32::MAX
                    &&& i32::MIN <= old(self)@.nodes[a].score + game_score <= i32::MAX
                },
        ensures
            final(self)@ == old(self)@.propagated(node as int, game_score as int),
    {
        let ghost before = self@;
        let ghost start = node as int;
        let ghost outcome = game_score as int;
        let mut node = node;
        proof {
            assert forall|a: int| 0 <= a < before.nodes.len() implies self@.nodes[a]
                == before.propagated_down_to(start, outcome, start).nodes[a] by {
                if before.on_path(a, start) {
                    before.lemma_on_path_bounds(a, start);
                }
            }
            assert(self@.nodes =~= before.propagated_down_to(start, outcome, start).nodes);
        }
        loop
            invariant
                before.wf(),
                before.has(start),
                before.has(node as int),
                before.on_path(node as int, start),
                self@ == before.propagated_down_to(start, outcome, node as int),
                outcome == game_score,
                forall|a: int|
                    before.has(a) && a != start && before.on_path(a, start) ==> {
                        &&& (#[trigger] before.nodes[a]).visits < u32::MAX
                        &&& i32::MIN <= before.nodes[a].score + game_score <= i32::MAX
                    },
            ensures
                self@ == before.propagated(start, outcome),
            decreases node,
        {
            match self[node].parent {
                Some(parent) => {
                    proof {
                        before.lemma_on_path_bounds(node as int, start);
                        before.lemma_on_path_parent(node as int, start);
                        before.lemma_on_path_bounds(parent as int, start);
                        assert(self@.nodes[parent as int] == before.nodes[parent as int]);
                    }
                    self.get_mut(parent).score += game_score;
                    self.get_mut(parent).visits += 1;
                    proof {
                        let goal = before.propagated_down_to(start, outcome, parent as int);
                        assert forall|a: int| 0 <= a < before.nodes.len() implies self@.nodes[a]
                            == goal.nodes[a] by {
                            if a != start && a >= parent && before.on_path(a, start) && a < node {
                                before.lemma_path_is_a_chain(a, node as int, start);
                                before.lemma_on_path_bounds(a, parent as int);
                            }
                        }
                        assert(self@.nodes =~= goal.nodes);
                    }
                    node = self[parent].id;
                },
                None => {
                    proof {
                        assert(node == 0);
                        assert(self@.nodes =~= before.propagated(start, outcome).nodes);
                    }
                    break ;
                },
            }
        }
    }

    /// Plays the game out from `node`, credits the outcome to the node and
    /// then to each of its ancestors.
    pub fn rollout(&mut self, node: usize)
        requires
            sound::<T>(old(self)@),
            has_room::<T>(old(self)@),
            old(self)@.has(node as int),
        ensures
            sound::<T>(final(self)@),
            exists|outcome: int|
                may_end::<T>(old(self)@.nodes[node as int].position, outcome) && final(self)@
                    == #[trigger] old(self)@.rolled_out(node as int, outcome),
    {
        let ghost before = self@;
        let held = &self[node].game_state;
        let game_score = held.terminate();
        proof {
            assert(call_ensures(T::terminate, (held,), game_score));
            assert(may_end::<T>(before.nodes[node as int].position, game_score as int));
        }
        proof {
            let b = T::outcome_bound();
            assert forall|a: int| before.has(a) && before.on_path(a, node as int) implies {
                &&& (#[trigger] before.nodes[a]).visits < u32::MAX
                &&& i32::MIN <= before.nodes[a].score + game_score <= i32::MAX
            } by {
                before.lemma_on_path_bounds(a, node as int);
                lemma_credit_in_bounds(
                    before.nodes[a].visits,
                    before.nodes[0].visits,
                    b,
                    before.nodes[a].score,
                    game_score as int,
                );
            }
            before.lemma_on_path_bounds(node as int, node as int);
        }
        self.get_mut(node).score += game_score;
        self.get_mut(node).visits += 1;
        proof {
            assert(before.same_shape(self@));
            before.lemma_same_shape_wf(self@);
            assert forall|a: int| self@.has(a) && a != node && self@.on_path(a, node as int) implies {
                &&& (#[trigger] self@.nodes[a]).visits < u32::MAX
                &&& i32::MIN <= self@.nodes[a].score + game_score <= i32::MAX
            } by {
                before.lemma_same_shape_path(self@, a, node as int);
                before.lemma_on_path_bounds(a, node as int);
                assert(self@.nodes[a] == before.nodes[a]);
            }
        }
        let ghost mid = self@;
        self.propagate_from(node, game_score);
        proof {
            let goal = before.rolled_out(node as int, game_score as int);
            assert forall|a: int| 0 <= a < before.nodes.len() implies self@.nodes[a] == goal.nodes[a] by {
                before.lemma_same_shape_path(mid, a, node as int);
            }
            assert(self@.nodes =~= goal.nodes);
            lemma_rolled_out_sound::<T>(before, node as int, game_score as int);
        }
    }

    /// Appends to `node` the child that playing `gm` leads to.
    pub fn generate_child_for_move(&mut self, node: usize, gm: T::MCTSMove)
        requires
            old(self)@.wf(),
            old(self)@.has(node as int),
            T::valid(old(self)@.nodes[node as int].position),
            T::moves(old(self)@.nodes[node as int].position).contains(gm),
        ensures
            final(self)@ == old(self)@.with_child(
                node as int,
                T::successor(old(self)@.nodes[node as int].position, gm),
            ),
            final(self)@.wf(),
    {
        let held = &self[node].game_state;
        let mut gs = held.clone();
        proof {
            T::lemma_clone_keeps_position(held, &gs);
        }
        gs = gs.exec_move(gm);
        self.child_from_node_with_game_state(node, gs);
    }

    /// Gives the leaf `node` one child for each legal move of its state.
    pub fn node_expansion(&mut self, node: usize)
        requires
            sound::<T>(old(self)@),
            old(self)@.has(node as int),
            old(self)@.is_leaf(node as int),
            old(self)@.nodes[node as int].visits >= 1,
            !T::finished(old(self)@.nodes[node as int].position),
        ensures
            sound::<T>(final(self)@),
            final(self)@ == old(self)@.with_children(
                node as int,
                successors::<T>(old(self)@.nodes[node as int].position),
            ),
    {
        let ghost before = self@;
        let ghost pos = self@.nodes[node as int].position;
        let lm = self[node].game_state.legal_moves();
        for m in it: lm
            invariant
                it.seq() == T::moves(pos),
                growing::<T>(self@, node as int, it.index()),
                self@.nodes[node as int].position == pos,
                self@ == before.with_children(node as int, successors::<T>(pos).take(it.index())),
        {
            let ghost k = it.index();
            let ghost mid = self@;
            proof {
                assert(T::moves(pos)[k] == m);
                lemma_growing_step::<T>(mid, node as int, k);
            }
            self.generate_child_for_move(node, m);
            proof {
                let done = successors::<T>(pos).take(k + 1);
                assert(done.drop_last() =~= successors::<T>(pos).take(k));
                assert(done.last() == T::successor(pos, m));
            }
        }
        proof {
            assert(successors::<T>(pos).take(T::moves(pos).len() as int) =~= successors::<T>(pos));
        }
    }

    /// Handles the leaf that the descent arrived at: a rollout if it was
    /// never visited or the game is over there, an expansion otherwise.
    pub fn process_node(&mut self, node: usize)
        requires
            sound::<T>(old(self)@),
            has_room::<T>(old(self)@),
            old(self)@.has(node as int),
            old(self)@.is_leaf(node as int),
        ensures
            sound::<T>(final(self)@),
            advanced::<T>(old(self)@, node as int, final(self)@),
    {
        let unvisited = self[node].visits == 0;
        let over = self[node].game_state.is_terminal();
        if unvisited || over {
            self.rollout(node);
        } else {
            self.node_expansion(node);
        }
    }

    /// One step of the search: a descent to a leaf, then a rollout from it
    /// or its expansion.
    pub fn iterate_once<F: Fn(i32, u32, u32) -> u64>(&mut self, rank: &F)
        requires
            ranks_all(*rank),
            sound::<T>(old(self)@),
            has_room::<T>(old(self)@),
        ensures
            sound::<T>(final(self)@),
            exists|leaf: int|
                {
                    &&& old(self)@.has(leaf)
                    &&& may_arrive_at(old(self)@, *rank, leaf)
                    &&& #[trigger] advanced::<T>(old(self)@, leaf, final(self)@)
                    &&& deterministic(*rank) ==> leaf == old(self)@.selected_leaf(0, key_of(*rank))
                },
    {
        let node = self.determine_next_node(rank);
        self.process_node(node);
        proof {
            assert(advanced::<T>(old(self)@, node as int, self@));
        }
    }
}

/// The tree after one step of the search under the keys `key`, where
/// `outcome` is the result of the rollout if the step makes one.
pub open spec fn stepped<T: MCTS>(
    tree: Tree<T::V>,
    key: spec_fn(int, nat, nat) -> u64,
    outcome: int,
) -> Tree<T::V> {
    let leaf = tree.selected_leaf(0, key);
    let pos = tree.nodes[leaf].position;
    if tree.nodes[leaf].visits == 0 || T::finished(pos) {
        tree.rolled_out(leaf, outcome)
    } else {
        tree.with_children(leaf, successors::<T>(pos))
    }
}

/// The tree after one step of the search for each entry of `outcomes`.
pub open spec fn searched<T: MCTS>(
    tree: Tree<T::V>,
    key: spec_fn(int, nat, nat) -> u64,
    outcomes: Seq<int>,
) -> Tree<T::V>
    decreases outcomes.len(),
{
    if outcomes.len() == 0 {
        tree
    } else {
        stepped::<T>(searched::<T>(tree, key, outcomes.drop_last()), key, outcomes.last())
    }
}

/// Whether `outcomes` can be the results of the rollouts of a search from
/// `tree`: each is within the bound of the game, and where the step makes a
/// rollout, its entry is a result that the playout from the leaf can give.
pub open spec fn plausible<T: MCTS>(
    tree: Tree<T::V>,
    key: spec_fn(int, nat, nat) -> u64,
    outcomes: Seq<int>,
) -> bool
    decreases outcomes.len(),
{
    outcomes.len() == 0 || {
        let reached = searched::<T>(tree, key, outcomes.drop_last());
        let leaf = reached.selected_leaf(0, key);
        let pos = reached.nodes[leaf].position;
        &&& plausible::<T>(tree, key, outcomes.drop_last())
        &&& -T::outcome_bound() <= outcomes.last() <= T::outcome_bound()
        &&& reached.nodes[leaf].visits == 0 || T::finished(pos) ==> may_end::<T>(pos, outcomes.last())
    }
}

} // verus!
