use crate::mcts::{Arena, MCTS};
use crate::tree::{NodeView, Tree};
use vstd::prelude::*;

verus! {

/// The smallest game there is: two moves, always available, that change
/// nothing, and a playout that always ends with the outcome 2.
#[derive(Debug)]
pub struct GameStateTest {}

impl Clone for GameStateTest {
    fn clone(&self) -> (copy: Self)
        ensures
            copy@ == self@,
    {
        GameStateTest {  }
    }
}

impl View for GameStateTest {
    type V = ();

    open spec fn view(&self) -> () {
        ()
    }
}

impl Default for GameStateTest {
    fn default() -> (gs: Self)
        ensures
            gs@ == (),
    {
        GameStateTest {  }
    }
}

impl MCTS for GameStateTest {
    type MCTSMove = usize;

    type MCTSState = GameStateTest;

    open spec fn valid(pos: ()) -> bool {
        true
    }

    open spec fn moves(pos: ()) -> Seq<usize> {
        seq![0usize, 1usize]
    }

    open spec fn successor(pos: (), gm: usize) -> () {
        ()
    }

    open spec fn arrival(pos: ()) -> Option<usize> {
        Some(0usize)
    }

    open spec fn finished(pos: ()) -> bool {
        false
    }

    open spec fn outcome_bound() -> nat {
        2
    }

    proof fn lemma_clone_keeps_position(a: &Self, b: &Self) {
    }

    proof fn lemma_successor(pos: (), gm: usize) {
        assert(seq![0usize, 1usize][0] == 0usize);
    }

    fn legal_moves(&self) -> Vec<usize> {
        vec![0, 1]
    }

    fn exec_move(self, gm: usize) -> GameStateTest {
        GameStateTest::default()
    }

    /// Always the first move: nothing is left to chance in this game.
    fn random_move(&self) -> (gm: usize)
        ensures
            gm == 0,
    {
        assert(seq![0usize, 1usize][0] == 0usize);
        0
    }

    fn terminate(&self) -> (outcome: i32)
        ensures
            outcome == 2,
    {
        2
    }

    fn last_move(&self) -> usize {
        0
    }

    fn is_terminal(&self) -> bool {
        false
    }
}

/// The tree that `setup_test_arena` builds: a root with three children,
/// with visits 3, 2, 1, 0 and scores 6, 3, 2, 0.
pub open spec fn test_tree() -> Tree<()> {
    Tree {
        nodes: seq![
            NodeView { id: 0, parent: None, position: (), visits: 3, score: 6, children: seq![1int, 2int, 3int] },
            NodeView { id: 1, parent: Some(0int), position: (), visits: 2, score: 3, children: Seq::empty() },
            NodeView { id: 2, parent: Some(0int), position: (), visits: 1, score: 2, children: Seq::empty() },
            NodeView { id: 3, parent: Some(0int), position: (), visits: 0, score: 0, children: Seq::empty() },
        ],
    }
}

/// An arena of the minimal game with fixed statistics, for trying out the
/// selection on known numbers.
pub fn setup_test_arena() -> (arena: Arena<GameStateTest>)
    ensures
        arena@ == test_tree(),
        arena@.wf(),
{
    let mut arena = Arena::new_arena_with_game_state(&GameStateTest::default());
    proof {
        let tree = arena@;
        assert(tree.wf());
    }
    arena.child_from_node_with_game_state(0, GameStateTest {  });
    arena.child_from_node_with_game_state(0, GameStateTest {  });
    arena.child_from_node_with_game_state(0, GameStateTest {  });
    arena.get_mut(0).visits = 3;
    arena.get_mut(1).visits = 2;
    arena.get_mut(2).visits = 1;
    arena.get_mut(3).visits = 0;

    arena.get_mut(0).score = 6;
    arena.get_mut(1).score = 3;
    arena.get_mut(2).score = 2;
    arena.get_mut(3).score = 0;

    proof {
        let tree = arena@;
        assert(tree.nodes.len() == 4);
        assert(tree.nodes[0].children =~= seq![1int, 2int, 3int]);
        assert(tree.nodes[1].children =~= Seq::empty());
        assert(tree.nodes[2].children =~= Seq::empty());
        assert(tree.nodes[3].children =~= Seq::empty());
        assert(tree.nodes =~= test_tree().nodes);
        assert(tree.nodes[0].children.contains(1)) by {
            assert(tree.nodes[0].children[0] == 1);
        }
        assert(tree.nodes[0].children.contains(2)) by {
            assert(tree.nodes[0].children[1] == 2);
        }
        assert(tree.nodes[0].children.contains(3)) by {
            assert(tree.nodes[0].children[2] == 3);
        }
    }
    arena
}

} // verus!
