use mcts::display::render;
use mcts::logic::{new_board, starting_player, TTTGameMove, TTTGameState, TTTPlayer};
use mcts::mcts::MCTS;
use mcts::opening::new_game;
use mcts::parse::{field_index, human_move, parse_input};

const X: TTTPlayer = TTTPlayer::Human;
const O: TTTPlayer = TTTPlayer::Computer;
const E: TTTPlayer = TTTPlayer::Nobody;

fn game(next_player: TTTPlayer, board: [TTTPlayer; 9]) -> TTTGameState {
    TTTGameState { next_player, board: board.to_vec(), last_move: None }
}

fn fields(moves: &[TTTGameMove]) -> Vec<usize> {
    moves.iter().map(|gm| TTTGameMove::into(*gm)).collect()
}

fn by_visits(_score: i32, visits: u32, _parent_visits: u32) -> u64 {
    u64::MAX - visits as u64
}

#[test]
fn new_board_is_empty() {
    assert_eq!(new_board(), vec![E; 9]);
}

#[test]
fn somebody_starts() {
    for _ in 0..50 {
        assert_ne!(starting_player(), E);
    }
}

#[test]
fn default_game_is_fresh() {
    let gs = TTTGameState::default();
    assert_eq!(gs.board, vec![E; 9]);
    assert_eq!(gs.last_move, None);
    assert_ne!(gs.next_player, E);
}

#[test]
fn move_keeps_its_field() {
    for field in 0..9 {
        assert_eq!(TTTGameMove::from(field).into(), field);
    }
    assert_eq!(TTTGameMove::from(4), TTTGameMove::from(4));
    assert_ne!(TTTGameMove::from(4), TTTGameMove::from(5));
}

#[test]
fn legal_moves_are_the_free_fields_in_order() {
    assert_eq!(fields(&game(X, [E; 9]).legal_moves_impl()), vec![0, 1, 2, 3, 4, 5, 6, 7, 8]);
    assert_eq!(fields(&game(X, [X, E, O, E, E, X, O, E, E]).legal_moves_impl()), vec![1, 3, 4, 7, 8]);
    assert_eq!(fields(&game(X, [X, O, X, O, X, O, O, X, E]).legal_moves_impl()), vec![8]);
    assert_eq!(fields(&game(X, [X, O, X, O, X, O, O, X, O]).legal_moves_impl()), Vec::<usize>::new());
    assert_eq!(fields(&game(O, [E, O, X, O, X, O, O, X, O]).legal_moves()), vec![0]);
}

#[test]
fn every_line_wins() {
    let lines = [[0, 1, 2], [3, 4, 5], [6, 7, 8], [0, 3, 6], [1, 4, 7], [2, 5, 8], [0, 4, 8], [2, 4, 6]];
    for line in lines {
        for owner in [X, O] {
            let mut board = [E; 9];
            for field in line {
                board[field] = owner;
            }
            assert!(game(X, board).has_winner());
            assert!(game(X, board).is_terminal());
            assert!(!game(X, board).is_draw());
        }
    }
}

#[test]
fn no_line_no_winner() {
    assert!(!game(X, [E; 9]).has_winner());
    assert!(!game(X, [X, X, O, E, E, E, E, E, E]).has_winner());
    assert!(!game(X, [X, O, X, X, O, O, O, X, X]).has_winner());
    assert!(!game(X, [E, X, X, X, E, E, E, E, E]).has_winner());
    assert!(!game(X, [E, E, X, X, X, E, E, E, E]).has_winner());
}

#[test]
fn full_board_is_a_draw() {
    let full = game(X, [X, O, X, X, O, O, O, X, X]);
    assert!(full.is_draw());
    assert!(full.is_terminal());
    assert_eq!(full.get_winner(), E);
    assert!(!game(X, [X, O, X, X, O, O, O, X, E]).is_draw());
    assert!(!game(X, [X, O, X, X, O, O, O, X, E]).is_terminal());
    assert!(!game(X, [E; 9]).is_terminal());
}

#[test]
fn winner_is_who_moved_last() {
    assert_eq!(game(O, [X, X, X, O, O, E, E, E, E]).get_winner(), X);
    assert_eq!(game(X, [O, O, O, X, X, E, E, E, E]).get_winner(), O);
    assert_eq!(game(O, [X, X, X, O, O, X, O, X, O]).get_winner(), E);
}

#[test]
fn move_takes_the_field_and_passes_the_turn() {
    let start = game(X, [E; 9]);
    let gm = TTTGameMove::from(4);
    let next = start.exec_move_impl(gm);
    assert_eq!(next.board, vec![E, E, E, E, X, E, E, E, E]);
    assert_eq!(next.next_player, O);
    assert_eq!(next.last_move, Some(gm));
    assert_eq!(next.last_move(), gm);
    let third = next.exec_move(TTTGameMove::from(0));
    assert_eq!(third.board, vec![O, E, E, E, X, E, E, E, E]);
    assert_eq!(third.next_player, X);
    assert_eq!(third.last_move(), TTTGameMove::from(0));
}

#[test]
fn clone_is_the_same_game() {
    let gs = game(O, [X, E, O, E, E, X, O, E, E]).exec_move_impl(TTTGameMove::from(1));
    assert_eq!(gs.clone(), gs);
}

#[test]
fn random_move_is_legal() {
    let gs = game(X, [X, E, O, E, E, X, O, E, E]);
    let mut seen = [false; 9];
    for _ in 0..400 {
        let field = gs.get_random_move().into();
        assert!([1, 3, 4, 7, 8].contains(&field));
        seen[field] = true;
        assert!(gs.legal_moves_impl().contains(&gs.random_move()));
    }
    assert_eq!(seen, [false, true, false, true, true, false, false, true, true]);
    assert_eq!(game(X, [X, O, X, O, X, O, O, X, E]).get_random_move(), TTTGameMove::from(8));
}

#[test]
fn playout_of_a_finished_game_is_its_value() {
    assert_eq!(game(O, [X, X, X, O, O, E, E, E, E]).terminate(), 0);
    assert_eq!(game(X, [O, O, O, X, X, E, E, E, E]).terminate(), 2);
    assert_eq!(game(X, [X, O, X, X, O, O, O, X, X]).terminate(), 1);
    assert_eq!(game(O, [X, X, X, O, O, X, O, X, O]).terminate(), 1);
}

#[test]
fn playout_ends_with_a_value() {
    let gs = game(O, [E; 9]);
    let mut seen = [false; 3];
    for _ in 0..500 {
        let outcome = gs.terminate();
        assert!((0..=2).contains(&outcome));
        seen[outcome as usize] = true;
    }
    assert_eq!(seen, [true, true, true]);
    assert_eq!(game(X, [X, X, O, O, O, X, X, O, E]).terminate(), 1);
    assert_eq!(game(X, [X, O, O, O, X, X, X, O, E]).terminate(), 1);
    assert_eq!(gs.board, vec![E; 9]);
}

#[test]
fn state_reports_the_end_to_the_search() {
    assert!(MCTS::is_terminal(&game(O, [X, X, X, O, O, E, E, E, E])));
    assert!(!MCTS::is_terminal(&game(O, [X, X, E, O, O, E, E, E, E])));
}

#[test]
fn board_is_shown_in_rows() {
    assert_eq!(render(&game(X, [E; 9])), "\n. . . \n. . . \n. . . \n");
    assert_eq!(render(&game(X, [X, E, O, E, X, E, O, E, X])), "\nx . o \n. x . \no . x \n");
}

#[test]
fn input_names_a_field() {
    assert_eq!(parse_input("1"), Some(0));
    assert_eq!(parse_input("9"), Some(8));
    assert_eq!(parse_input(" 5\n"), Some(4));
    assert_eq!(parse_input("\t7 \r\n"), Some(6));
    assert_eq!(parse_input("+3"), Some(2));
    assert_eq!(parse_input("007"), Some(6));
}

#[test]
fn other_input_names_no_field() {
    for input in ["", "\n", "0", "10", "-1", "a", "1 2", "5.", "x5", "+", "++1", "1_", "٣",
        "99999999999999999999999999999"] {
        assert_eq!(parse_input(input), None);
    }
}

#[test]
fn field_index_wants_the_bare_number() {
    assert_eq!(field_index("4"), Some(3));
    assert_eq!(field_index(" 4"), None);
    assert_eq!(field_index("4\n"), None);
    assert_eq!(field_index("0"), None);
    assert_eq!(field_index("10"), None);
}

#[test]
fn human_may_take_a_free_field_only() {
    let gs = game(X, [X, E, O, E, E, X, O, E, E]);
    for field in 0..9 {
        let expected = if [1, 3, 4, 7, 8].contains(&field) { Some(TTTGameMove::from(field)) } else { None };
        assert_eq!(human_move(&gs, field), expected);
    }
}

#[test]
fn opened_game_waits_for_the_human() {
    let mut computer_began = false;
    let mut human_began = false;
    for _ in 0..12 {
        let (gs, first) = new_game(by_visits);
        assert_eq!(gs.next_player, X);
        assert_eq!(gs.last_move, first);
        match first {
            Some(gm) => {
                let mut board = vec![E; 9];
                board[gm.into()] = O;
                assert_eq!(gs.board, board);
                computer_began = true;
            }
            None => {
                assert_eq!(gs.board, vec![E; 9]);
                human_began = true;
            }
        }
    }
    assert!(computer_began || human_began);
}
