use crate::logic::{free_fields, lemma_taking_a_field, TTTGameMove, TTTGameState, TTTPlayer, TTTPosition};
use crate::mcts::MCTS;
use vstd::prelude::*;

verus! {

/// What a finished game is worth to the computer: 2 if it has won, 1 if
/// nobody has, 0 if the human has.
pub open spec fn outcome_value(pos: TTTPosition) -> int {
    match pos.winner() {
        TTTPlayer::Human => 0,
        TTTPlayer::Computer => 2,
        TTTPlayer::Nobody => 1,
    }
}

/// Whether `to` can be reached from `from` by `n` moves, each onto a free
/// field of a game that is not over.
pub open spec fn plays_on(from: TTTPosition, to: TTTPosition, n: nat) -> bool
    decreases n,
{
    if n == 0 {
        from == to
    } else {
        exists|mid: TTTPosition, gm: TTTGameMove|
            {
                &&& plays_on(from, mid, (n - 1) as nat)
                &&& !mid.is_terminal()
                &&& mid.free(gm.index())
                &&& to == #[trigger] mid.played(gm)
            }
    }
}

impl MCTS for TTTGameState {
    type MCTSMove = TTTGameMove;

    type MCTSState = TTTGameState;

    open spec fn valid(pos: TTTPosition) -> bool {
        pos.wf()
    }

    open spec fn moves(pos: TTTPosition) -> Seq<TTTGameMove> {
        pos.free_moves()
    }

    open spec fn successor(pos: TTTPosition, gm: TTTGameMove) -> TTTPosition {
        pos.played(gm)
    }

    open spec fn arrival(pos: TTTPosition) -> Option<TTTGameMove> {
        pos.last_move
    }

    open spec fn finished(pos: TTTPosition) -> bool {
        pos.is_terminal()
    }

    open spec fn outcome_bound() -> nat {
        2
    }

    proof fn lemma_clone_keeps_position(a: &Self, b: &Self) {
    }

    proof fn lemma_successor(pos: TTTPosition, gm: TTTGameMove) {
        pos.lemma_free_moves(gm);
    }

    fn exec_move(self, gm: Self::MCTSMove) -> Self::MCTSState {
        proof {
            self@.lemma_free_moves(gm);
        }
        TTTGameState::exec_move_impl(self, gm)
    }

    fn legal_moves(&self) -> Vec<Self::MCTSMove> {
        TTTGameState::legal_moves_impl(self)
    }

    fn last_move(&self) -> Self::MCTSMove {
        self.last_move.unwrap()
    }

    fn random_move(&self) -> Self::MCTSMove {
        proof {
            assert(self@.free_moves().len() == free_fields(self@.board).len());
        }
        self.get_random_move()
    }

    /// Plays random moves until the game is over and returns what the end
    /// is worth to the computer.
    fn terminate(&self) -> (outcome: i32)
        ensures
            0 <= outcome <= 2,
            self@.is_terminal() ==> outcome == outcome_value(self@),
            exists|end: TTTPosition, n: nat|
                #[trigger] plays_on(self@, end, n) && end.is_terminal() && outcome == outcome_value(
                    end,
                ),
    {
        let mut gs = self.clone();
        let ghost mut played: nat = 0;
        loop
            invariant
                gs@.wf(),
                plays_on(self@, gs@, played),
                played == 0 ==> gs@ == self@,
                played > 0 ==> !self@.is_terminal(),
            decreases free_fields(gs@.board).len(),
        {
            if gs.is_terminal() {
                match gs.get_winner() {
                    TTTPlayer::Human => return 0,
                    TTTPlayer::Computer => return 2,
                    TTTPlayer::Nobody => return 1,
                }
            }
            let rm = gs.get_random_move();
            let ghost mid = gs@;
            proof {
                lemma_taking_a_field(gs@.board, 9, rm.index(), gs@.next_player);
            }
            gs = gs.exec_move(rm);
            proof {
                assert(gs@ == mid.played(rm));
                assert(plays_on(self@, gs@, played + 1));
                played = played + 1;
            }
        }
    }

    fn is_terminal(&self) -> bool {
        self.is_terminal()
    }
}

} // verus!
