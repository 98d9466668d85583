use crate::logic::{TTTGameState, TTTPlayer};
use vstd::prelude::*;
use vstd::string::StringExecFns;

verus! {

/// How a field is shown: a dot if nobody owns it, `x` for the human, `o`
/// for the computer, each followed by a blank.
pub open spec fn cell_text(owner: TTTPlayer) -> Seq<char> {
    match owner {
        TTTPlayer::Nobody => seq!['.', ' '],
        TTTPlayer::Human => seq!['x', ' '],
        TTTPlayer::Computer => seq!['o', ' '],
    }
}

/// The first `n` fields of a board as text: a line break before the
/// first, the fourth and the seventh field, then the field.
pub open spec fn cells_text(board: Seq<TTTPlayer>, n: int) -> Seq<char>
    decreases n,
{
    if n <= 0 {
        Seq::empty()
    } else {
        let lead = if n - 1 == 0 || n - 1 == 3 || n - 1 == 6 {
            seq!['\n']
        } else {
            Seq::empty()
        };
        cells_text(board, n - 1) + lead + cell_text(board[n - 1])
    }
}

/// A board as text: its fields in rows of three, and a line break at the end.
pub open spec fn board_text(board: Seq<TTTPlayer>) -> Seq<char> {
    cells_text(board, board.len() as int) + seq!['\n']
}

/// The board of `gs` as text, for showing it to the player.
pub fn render(gs: &TTTGameState) -> (text: String)
    ensures
        text@ == board_text(gs@.board),
{
    let mut text = String::new();
    let mut count: usize = 0;
    proof {
        reveal_strlit("\n");
        reveal_strlit(". ");
        reveal_strlit("x ");
        reveal_strlit("o ");
    }
    while count < gs.board.len()
        invariant
            count <= gs.board.len(),
            text@ == cells_text(gs@.board, count as int),
            "\n"@ == seq!['\n'],
            ". "@ == seq!['.', ' '],
            "x "@ == seq!['x', ' '],
            "o "@ == seq!['o', ' '],
        decreases gs.board.len() - count,
    {
        if count == 0 || count == 3 || count == 6 {
            text.append("\n");
        }
        match gs.board[count] {
            TTTPlayer::Nobody => text.append(". "),
            TTTPlayer::Human => text.append("x "),
            TTTPlayer::Computer => text.append("o "),
        }
        proof {
            let lead: Seq<char> = if count == 0 || count == 3 || count == 6 {
                seq!['\n']
            } else {
                Seq::empty()
            };
            assert(text@ =~= cells_text(gs@.board, count as int) + lead + cell_text(
                gs@.board[count as int],
            ));
        }
        count += 1;
    }
    text.append("\n");
    text
}

} // verus!
