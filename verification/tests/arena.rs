use mcts::logic::{TTTGameState, TTTPlayer};
use mcts::mcts::{Arena, MCTS};
use mcts::minimal::{setup_test_arena, GameStateTest};
use mcts::selection::{last_max_index, mean_at_most};

fn by_visits(_score: i32, visits: u32, _parent_visits: u32) -> u64 {
    u64::MAX - visits as u64
}

fn by_score(score: i32, _visits: u32, _parent_visits: u32) -> u64 {
    (score as i64 + 1_000_000) as u64
}

fn fresh_game() -> TTTGameState {
    TTTGameState { next_player: TTTPlayer::Computer, board: vec![TTTPlayer::Nobody; 9], last_move: None }
}

#[test]
fn test_arena_has_the_fixed_statistics() {
    let arena = setup_test_arena();
    assert_eq!(arena.next_id(), 4);
    assert_eq!(arena[0].children, vec![1, 2, 3]);
    let expected = [(3, 6), (2, 3), (1, 2), (0, 0)];
    for id in 0..4 {
        assert_eq!(arena[id].id, id);
        assert_eq!((arena[id].visits, arena[id].score), expected[id]);
        assert_eq!(arena.get(id).visits, expected[id].0);
    }
    for id in 1..4 {
        assert_eq!(arena[id].parent, Some(0));
        assert!(arena[id].is_leaf());
    }
    assert!(!arena[0].is_leaf());
}

#[test]
fn appended_child_gets_the_next_id_and_is_linked() {
    let mut arena = setup_test_arena();
    arena.child_from_node_with_game_state(3, GameStateTest {});
    assert_eq!(arena.next_id(), 5);
    assert_eq!(arena[4].id, 4);
    assert_eq!(arena[4].parent, Some(3));
    assert_eq!(arena[4].visits, 0);
    assert_eq!(arena[4].score, 0);
    assert!(arena[4].is_leaf());
    assert_eq!(arena[3].children, vec![4]);
    assert_eq!(arena[0].children, vec![1, 2, 3]);
}

#[test]
fn node_can_be_changed_in_place() {
    let mut arena = setup_test_arena();
    arena.get_mut(2).visits = 7;
    arena.get_mut(2).score = -4;
    assert_eq!(arena[2].visits, 7);
    assert_eq!(arena[2].score, -4);
    assert_eq!(arena[1].visits, 2);
}

#[test]
fn propagation_credits_the_ancestors_only() {
    let mut arena = setup_test_arena();
    arena.child_from_node_with_game_state(2, GameStateTest {});
    arena.propagate_from(4, 5);
    assert_eq!((arena[4].visits, arena[4].score), (0, 0));
    assert_eq!((arena[2].visits, arena[2].score), (2, 7));
    assert_eq!((arena[0].visits, arena[0].score), (4, 11));
    assert_eq!((arena[1].visits, arena[1].score), (2, 3));
    assert_eq!((arena[3].visits, arena[3].score), (0, 0));
}

#[test]
fn propagation_from_the_root_changes_nothing() {
    let mut arena = setup_test_arena();
    arena.propagate_from(0, 5);
    assert_eq!((arena[0].visits, arena[0].score), (3, 6));
}

#[test]
fn rollout_credits_the_node_and_its_ancestors() {
    let mut arena = Arena::new_arena_with_game_state(&GameStateTest::default());
    arena.rollout(0);
    assert_eq!((arena[0].visits, arena[0].score), (1, 2));
    arena.node_expansion(0);
    arena.rollout(2);
    assert_eq!((arena[2].visits, arena[2].score), (1, 2));
    assert_eq!((arena[0].visits, arena[0].score), (2, 4));
    assert_eq!((arena[1].visits, arena[1].score), (0, 0));
    assert!(arena[2].is_leaf());
}

#[test]
fn expansion_makes_one_child_for_each_legal_move() {
    let game = fresh_game();
    let mut arena = Arena::new_arena_with_game_state(&game);
    arena.rollout(0);
    arena.node_expansion(0);
    assert_eq!(arena.next_id(), 10);
    assert_eq!(arena[0].children, (1..10).collect::<Vec<usize>>());
    let moves = game.legal_moves();
    for (k, child) in arena[0].children.iter().enumerate() {
        let node = &arena[*child];
        assert_eq!(node.parent, Some(0));
        assert_eq!((node.visits, node.score), (0, 0));
        assert_eq!(node.game_state.last_move(), moves[k]);
        assert_eq!(node.game_state, game.clone().exec_move(moves[k]));
    }
}

#[test]
fn generated_child_holds_the_state_after_the_move() {
    let game = fresh_game();
    let mut arena = Arena::new_arena_with_game_state(&game);
    let gm = game.legal_moves()[4];
    arena.generate_child_for_move(0, gm);
    assert_eq!(arena.next_id(), 2);
    assert_eq!(arena[1].game_state.board[4], TTTPlayer::Computer);
    assert_eq!(arena[1].game_state.next_player, TTTPlayer::Human);
    assert_eq!(arena[0].game_state, game);
}

#[test]
fn processing_rolls_out_then_expands() {
    let mut arena = Arena::new_arena_with_game_state(&GameStateTest::default());
    arena.process_node(0);
    assert_eq!(arena.next_id(), 1);
    assert_eq!((arena[0].visits, arena[0].score), (1, 2));
    arena.process_node(0);
    assert_eq!(arena.next_id(), 3);
    assert_eq!((arena[0].visits, arena[0].score), (1, 2));
    assert_eq!(arena[0].children, vec![1, 2]);
}

#[test]
fn processing_a_finished_game_rolls_out_again() {
    let human = TTTPlayer::Human;
    let nobody = TTTPlayer::Nobody;
    let won = TTTGameState {
        next_player: TTTPlayer::Computer,
        board: vec![human, human, human, nobody, nobody, nobody, nobody, nobody, nobody],
        last_move: None,
    };
    let mut arena = Arena::new_arena_with_game_state(&won);
    arena.process_node(0);
    arena.process_node(0);
    arena.process_node(0);
    assert_eq!(arena.next_id(), 1);
    assert_eq!((arena[0].visits, arena[0].score), (3, 0));
}

#[test]
fn descent_takes_the_youngest_of_the_best_children() {
    let mut arena = Arena::new_arena_with_game_state(&GameStateTest::default());
    assert_eq!(arena.determine_next_node(&by_visits), 0);
    arena.iterate_once(&by_visits);
    arena.iterate_once(&by_visits);
    assert_eq!(arena.determine_next_node(&by_visits), 2);
    arena.iterate_once(&by_visits);
    assert_eq!((arena[2].visits, arena[2].score), (1, 2));
    assert_eq!(arena.determine_next_node(&by_visits), 1);
    arena.iterate_once(&by_visits);
    assert_eq!(arena.determine_next_node(&by_visits), 2);
    arena.iterate_once(&by_visits);
    assert_eq!(arena[2].children, vec![3, 4]);
    assert_eq!(arena.determine_next_node(&by_visits), 4);
}

#[test]
fn keys_are_computed_from_the_node_and_its_parent() {
    let arena = setup_test_arena();
    let spy = |score: i32, visits: u32, parent_visits: u32| {
        (score as u64) * 10_000 + (visits as u64) * 100 + parent_visits as u64
    };
    assert_eq!(arena.ucb1_of(1, &spy), 30_203);
    assert_eq!(arena.ucb1_of(2, &spy), 20_103);
    assert_eq!(arena.ucb1_of(3, &spy), 3);
    assert_eq!(arena.rank_children(0, &spy), vec![30_203, 20_103, 3]);
    assert_eq!(arena.determine_next_node(&by_score), 1);
}

#[test]
fn last_greatest_key_wins() {
    assert_eq!(last_max_index(&vec![5]), 0);
    assert_eq!(last_max_index(&vec![1, 9, 3]), 1);
    assert_eq!(last_max_index(&vec![7, 2, 7, 1]), 2);
    assert_eq!(last_max_index(&vec![4, 4, 4]), 2);
    assert_eq!(last_max_index(&vec![u64::MAX, 0, u64::MAX - 1]), 0);
}

#[test]
fn means_are_compared_exactly() {
    assert!(mean_at_most(1, 3, 3334, 10_000));
    assert!(!mean_at_most(3334, 10_000, 1, 3));
    assert!(mean_at_most(1, 3, 3333, 9_999));
    assert!(mean_at_most(3333, 9_999, 1, 3));
    assert!(mean_at_most(3, 2, 2, 1));
    assert!(!mean_at_most(2, 1, 3, 2));
    assert!(mean_at_most(-1, 1, 0, 5));
    assert!(mean_at_most(i32::MAX, u32::MAX, i32::MAX, 1));
    assert!(mean_at_most(i32::MIN, 1, i32::MIN, u32::MAX));
}

#[test]
fn unvisited_child_outranks_every_visited_one() {
    assert!(mean_at_most(1_000, 1, 0, 0));
    assert!(!mean_at_most(0, 0, 1_000, 1));
    assert!(mean_at_most(0, 0, 0, 0));
    assert!(mean_at_most(5, 0, 0, 0));
    assert!(!mean_at_most(0, 0, 5, 0));
    assert!(mean_at_most(7, 3, 5, 0));
    assert!(mean_at_most(-5, 0, -7, 3));
    assert!(!mean_at_most(-7, 3, -5, 0));
}

#[test]
fn proposed_node_has_the_greatest_mean() {
    let mut arena = setup_test_arena();
    assert_eq!(arena.proposed_node(), 3);
    arena.get_mut(3).visits = 4;
    arena.get_mut(3).score = 8;
    assert_eq!(arena.proposed_node(), 3);
    arena.get_mut(3).score = 7;
    assert_eq!(arena.proposed_node(), 2);
    arena.get_mut(1).score = 4;
    assert_eq!(arena.proposed_node(), 2);
    arena.get_mut(1).score = 5;
    assert_eq!(arena.proposed_node(), 1);
}

#[test]
fn searched_tree_keeps_its_shape() {
    let game = fresh_game();
    let mut arena = Arena::new_arena_with_game_state(&game);
    for _ in 0..300 {
        arena.iterate_once(&by_visits);
    }
    let size = arena.next_id();
    assert!(size > 10);
    assert_eq!(arena[0].parent, None);
    let mut rollouts = 0;
    for id in 0..size {
        let node = &arena[id];
        assert_eq!(node.id, id);
        let moves = node.game_state.legal_moves().len();
        assert!(node.children.is_empty() || node.children.len() == moves);
        for child in &node.children {
            assert_eq!(arena[*child].parent, Some(id));
        }
        assert!(node.visits <= arena[0].visits);
        assert!(0 <= node.score && node.score <= 2 * node.visits as i32);
        if id > 0 {
            let mut current = id;
            let mut steps = 0;
            while let Some(parent) = arena[current].parent {
                assert!(parent < current);
                current = parent;
                steps += 1;
            }
            assert_eq!(current, 0);
            assert!(steps <= id);
        }
        if node.children.is_empty() {
            rollouts += node.visits;
        } else {
            let below: u32 = node.children.iter().map(|c| arena[*c].visits).sum();
            assert_eq!(node.visits, below + 1);
        }
    }
    assert!(rollouts <= arena[0].visits);
}
