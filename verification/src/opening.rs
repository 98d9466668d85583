use crate::logic::{free_below, TTTGameMove, TTTGameState, TTTPlayer, TTTPosition};
use crate::mcts::sim;
use crate::selection::ranks_all;
use vstd::prelude::*;

verus! {

/// The number of steps that the computer searches before each of its moves.
pub const SEARCH_STEPS: i32 = 10_000;

/// The board on which nothing has been played.
pub open spec fn empty_board() -> Seq<TTTPlayer> {
    Seq::new(9, |i: int| TTTPlayer::Nobody)
}

/// On the empty board every field is free.
pub proof fn lemma_empty_board_is_free(n: int)
    requires
        0 <= n <= 9,
    ensures
        free_below(empty_board(), n).len() == n,
    decreases n,
{
    if n > 0 {
        lemma_empty_board_is_free(n - 1);
    }
}

/// Opens a game. Who begins is left to chance; if it is the computer, it
/// searches for its first move and makes it, and the move is returned with
/// the game. Either way the human is to move next.
pub fn new_game<F: Fn(i32, u32, u32) -> u64>(rank: F) -> (opened: (TTTGameState, Option<TTTGameMove>))
    requires
        ranks_all(rank),
    ensures
        opened.0@.wf(),
        opened.0@.next_player == TTTPlayer::Human,
        opened.0@.last_move == opened.1,
        match opened.1 {
            Some(gm) => 0 <= gm.index() < 9 && opened.0@.board == empty_board().update(
                gm.index(),
                TTTPlayer::Computer,
            ),
            None => opened.0@.board == empty_board(),
        },
{
    let mut game = TTTGameState::default();
    match game.next_player {
        TTTPlayer::Computer => {
            proof {
                let pos = game@;
                lemma_empty_board_is_free(9);
                assert(!pos.has_winner());
                pos.lemma_free_moves(TTTGameMove::at(0));
            }
            let cm = sim(&game, SEARCH_STEPS, rank);
            proof {
                game@.lemma_free_moves(cm);
            }
            game = game.exec_move_impl(cm);
            (game, Some(cm))
        },
        _ => (game, None),
    }
}

} // verus!
