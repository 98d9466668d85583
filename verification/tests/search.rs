use mcts::logic::{TTTGameMove, TTTGameState, TTTPlayer};
use mcts::mcts::{sim, Arena, MCTS};
use mcts::minimal::{setup_test_arena, GameStateTest};

fn ordered_key(x: f32) -> u64 {
    if x.is_nan() {
        return u64::MAX;
    }
    let x = if x == 0.0 { 0.0 } else { x };
    let bits = x.to_bits();
    let ordered = if bits & 0x8000_0000 != 0 { !bits } else { bits | 0x8000_0000 };
    ordered as u64
}

fn ucb1(score: i32, visits: u32, parent_visits: u32) -> f32 {
    assert!(parent_visits > 0);
    let exploitation = if score == 0 { f32::MAX } else { score as f32 / visits as f32 };
    let exploration = 2.0 * ((parent_visits as f32).ln() / visits as f32).sqrt();
    exploitation + exploration
}

fn ucb1_key(score: i32, visits: u32, parent_visits: u32) -> u64 {
    ordered_key(ucb1(score, visits, parent_visits))
}

fn empty_game(next_player: TTTPlayer) -> TTTGameState {
    TTTGameState { next_player, board: vec![TTTPlayer::Nobody; 9], last_move: None }
}

#[test]
fn ucb1_of_fresh_node() {
    let arena = setup_test_arena();
    let key = arena.ucb1_of(3, &ucb1_key);
    assert_eq!(key, ordered_key(f32::INFINITY));
}

#[test]
fn ucb1_of_populated_node() {
    let arena = setup_test_arena();
    let key = arena.ucb1_of(2, &ucb1_key);
    assert_eq!(key, ordered_key(4.0962944));
    let key = arena.ucb1_of(1, &ucb1_key);
    assert_eq!(key, ordered_key(2.9823039));
}

#[test]
fn search_returns_a_legal_move_on_an_empty_board() {
    let game = empty_game(TTTPlayer::Computer);
    let legal = game.legal_moves_impl();
    let gm: TTTGameMove = sim(&game, 10_000, ucb1_key);
    assert!(legal.contains(&gm));
}

#[test]
fn search_of_the_minimal_game_is_repeatable() {
    let first = sim(&GameStateTest::default(), 200, ucb1_key);
    let second = sim(&GameStateTest::default(), 200, ucb1_key);
    assert_eq!(first, second);
    assert_eq!(first, 0);
}

#[test]
fn arena_starts_with_a_lone_root() {
    let arena: Arena<GameStateTest> = Arena::new_arena_with_game_state(&GameStateTest::default());
    assert_eq!(arena.next_id(), 1);
    assert_eq!(arena[0].id, 0);
    assert_eq!(arena[0].parent, None);
    assert_eq!(arena[0].visits, 0);
    assert_eq!(arena[0].score, 0);
    assert!(arena[0].is_leaf());
    assert_eq!(GameStateTest::default().legal_moves(), vec![0, 1]);
}

#[test]
fn shortest_search_proposes_the_youngest_unvisited_child() {
    let game = empty_game(TTTPlayer::Human);
    assert_eq!(sim(&game, 2, ucb1_key), TTTGameMove::from(8));
    assert_eq!(sim(&game, 3, ucb1_key), TTTGameMove::from(7));
    assert_eq!(sim(&game, 10, ucb1_key), TTTGameMove::from(0));
}

#[test]
fn search_takes_the_only_move_left() {
    let x = TTTPlayer::Human;
    let o = TTTPlayer::Computer;
    let game = TTTGameState {
        next_player: o,
        board: vec![x, o, x, x, o, o, o, x, TTTPlayer::Nobody],
        last_move: None,
    };
    assert_eq!(sim(&game, 50, ucb1_key), TTTGameMove::from(8));
}

#[test]
fn search_takes_the_winning_move() {
    let x = TTTPlayer::Human;
    let o = TTTPlayer::Computer;
    let e = TTTPlayer::Nobody;
    let game = TTTGameState { next_player: o, board: vec![o, o, e, x, x, e, e, e, e], last_move: None };
    assert_eq!(sim(&game, 5_000, ucb1_key), TTTGameMove::from(2));
}
