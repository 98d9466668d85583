use crate::chance::pick_one;
use itertools::Itertools;
use vstd::prelude::*;

verus! {

/// Who owns a field of the board, or who is to move.
#[derive(Clone, Copy, Debug, PartialEq, Eq, Structural)]
pub enum TTTPlayer {
    Computer,
    Human,
    Nobody,
}

/// A move: the index of the field that is taken, from 0 to 8.
///
/// ```text
/// 0 1 2
/// 3 4 5
/// 6 7 8
/// ```
#[derive(Clone, Copy, Debug, PartialEq, Eq, Structural)]
pub struct TTTGameMove(usize);

/// A game of tic-tac-toe between a human and the computer.
#[derive(Debug, PartialEq)]
pub struct TTTGameState {
    pub next_player: TTTPlayer,
    pub board: Vec<TTTPlayer>,
    pub last_move: Option<TTTGameMove>,
}

/// A game state as mathematical values.
pub struct TTTPosition {
    pub next_player: TTTPlayer,
    pub board: Seq<TTTPlayer>,
    pub last_move: Option<TTTGameMove>,
}

impl View for TTTGameState {
    type V = TTTPosition;

    open spec fn view(&self) -> TTTPosition {
        TTTPosition { next_player: self.next_player, board: self.board@, last_move: self.last_move }
    }
}

impl Clone for TTTGameState {
    fn clone(&self) -> (copy: Self)
        ensures
            copy@ == self@,
    {
        let copy = TTTGameState {
            next_player: self.next_player,
            board: self.board.clone(),
            last_move: self.last_move,
        };
        assert(copy.board@ =~= self.board@);
        copy
    }
}

/// The indices below `n` of the fields of `board` that nobody owns, in
/// ascending order.
pub open spec fn free_below(board: Seq<TTTPlayer>, n: int) -> Seq<int>
    decreases n,
{
    if n <= 0 {
        Seq::empty()
    } else if board[n - 1] == TTTPlayer::Nobody {
        free_below(board, n - 1).push(n - 1)
    } else {
        free_below(board, n - 1)
    }
}

/// The indices of the fields of `board` that nobody owns, in ascending order.
pub open spec fn free_fields(board: Seq<TTTPlayer>) -> Seq<int> {
    free_below(board, board.len() as int)
}

/// `free_below` lists free fields below `n`, each once, in ascending order.
pub proof fn lemma_free_below_lists_free(board: Seq<TTTPlayer>, n: int)
    requires
        0 <= n <= board.len(),
    ensures
        free_below(board, n).len() <= n,
        forall|k: int|
            0 <= k < free_below(board, n).len() ==> {
                let i = #[trigger] free_below(board, n)[k];
                0 <= i < n && board[i] == TTTPlayer::Nobody
            },
        forall|j: int, k: int|
            0 <= j < k < free_below(board, n).len() ==> #[trigger] free_below(board, n)[j]
                < #[trigger] free_below(board, n)[k],
    decreases n,
{
    if n > 0 {
        lemma_free_below_lists_free(board, n - 1);
    }
}

/// `free_below` leaves out no free field below `n`.
pub proof fn lemma_free_below_lists_all(board: Seq<TTTPlayer>, n: int, i: int)
    requires
        0 <= i < n <= board.len(),
        board[i] == TTTPlayer::Nobody,
    ensures
        free_below(board, n).contains(i),
    decreases n,
{
    if i == n - 1 {
        assert(free_below(board, n).last() == i);
    } else {
        lemma_free_below_lists_all(board, n - 1, i);
        let shorter = free_below(board, n - 1);
        let k = choose|k: int| 0 <= k < shorter.len() && #[trigger] shorter[k] == i;
        assert(free_below(board, n)[k] == i);
    }
}

/// Taking a free field leaves one free field less.
pub proof fn lemma_taking_a_field(board: Seq<TTTPlayer>, n: int, i: int, owner: TTTPlayer)
    requires
        0 <= n <= board.len(),
        0 <= i < board.len(),
        board[i] == TTTPlayer::Nobody,
        owner != TTTPlayer::Nobody,
    ensures
        free_below(board.update(i, owner), n).len() == free_below(board, n).len() - if i < n {
            1int
        } else {
            0int
        },
    decreases n,
{
    if n > 0 {
        lemma_taking_a_field(board, n - 1, i, owner);
    }
}

impl TTTGameMove {
    /// The index of the field that the move takes.
    pub closed spec fn index(self) -> int {
        self.0 as int
    }

    /// The move that takes the field with index `i`.
    pub closed spec fn at(i: int) -> TTTGameMove {
        TTTGameMove(i as usize)
    }

    /// `at` and `index` undo each other.
    pub proof fn lemma_at_index(i: int)
        requires
            0 <= i <= 8,
        ensures
            Self::at(i).index() == i,
    {
    }

    /// A move is the move at its index.
    pub proof fn lemma_index_at(self)
        ensures
            Self::at(self.index()) == self,
            0 <= self.index(),
    {
    }

    /// The move that takes the field with index `input`, which is 8 at most.
    pub fn from(input: usize) -> (gm: Self)
        requires
            input <= 8,
        ensures
            gm == Self::at(input as int),
            gm.index() == input,
    {
        TTTGameMove(input)
    }

    /// The index of the field that the move takes.
    pub fn into(self) -> (i: usize)
        ensures
            i == self.index(),
    {
        self.0
    }
}

impl TTTPosition {
    /// A position that a game can be in: nine fields, and somebody to move.
    pub open spec fn wf(self) -> bool {
        self.board.len() == 9 && self.next_player != TTTPlayer::Nobody
    }

    /// No field beyond the ninth is free, so every free field has a move.
    pub open spec fn fits(self) -> bool {
        forall|i: int| 9 <= i < self.board.len() ==> #[trigger] self.board[i] != TTTPlayer::Nobody
    }

    /// Whether field `i` is on the board and nobody owns it.
    pub open spec fn free(self, i: int) -> bool {
        0 <= i < self.board.len() && self.board[i] == TTTPlayer::Nobody
    }

    /// The moves onto the free fields, in ascending order of the fields.
    pub open spec fn free_moves(self) -> Seq<TTTGameMove> {
        free_fields(self.board).map_values(|i: int| TTTGameMove::at(i))
    }

    /// Whether one player owns all three of the fields `a`, `b` and `c`.
    pub open spec fn line(self, a: int, b: int, c: int) -> bool {
        self.board[a] != TTTPlayer::Nobody && self.board[a] == self.board[b] && self.board[b]
            == self.board[c]
    }

    /// Whether a row, a column or a diagonal belongs to one player.
    pub open spec fn has_winner(self) -> bool {
        ||| self.line(0, 1, 2)
        ||| self.line(3, 4, 5)
        ||| self.line(6, 7, 8)
        ||| self.line(0, 3, 6)
        ||| self.line(1, 4, 7)
        ||| self.line(2, 5, 8)
        ||| self.line(0, 4, 8)
        ||| self.line(2, 4, 6)
    }

    /// Whether no field is free.
    pub open spec fn is_draw(self) -> bool {
        free_fields(self.board).len() == 0
    }

    /// Whether the game is over: somebody has a line, or no field is free.
    pub open spec fn is_terminal(self) -> bool {
        self.has_winner() || self.is_draw()
    }

    /// Who has won a game that is over: nobody if the board is full, else
    /// the player who made the last move, which is the one not to move next.
    pub open spec fn winner(self) -> TTTPlayer {
        if self.is_draw() {
            TTTPlayer::Nobody
        } else {
            match self.next_player {
                TTTPlayer::Human => TTTPlayer::Computer,
                TTTPlayer::Computer => TTTPlayer::Human,
                TTTPlayer::Nobody => TTTPlayer::Nobody,
            }
        }
    }

    /// The position after the player to move has taken the field of `gm`.
    pub open spec fn played(self, gm: TTTGameMove) -> TTTPosition {
        TTTPosition {
            next_player: match self.next_player {
                TTTPlayer::Human => TTTPlayer::Computer,
                TTTPlayer::Computer => TTTPlayer::Human,
                TTTPlayer::Nobody => TTTPlayer::Nobody,
            },
            board: self.board.update(gm.index(), self.next_player),
            last_move: Some(gm),
        }
    }

    /// A move is among the free moves exactly if its field is free.
    pub proof fn lemma_free_moves(self, gm: TTTGameMove)
        requires
            self.fits(),
        ensures
            self.free_moves().contains(gm) <==> self.free(gm.index()),
            self.free_moves().len() == free_fields(self.board).len(),
    {
        let fields = free_fields(self.board);
        lemma_free_below_lists_free(self.board, self.board.len() as int);
        gm.lemma_index_at();
        if self.free_moves().contains(gm) {
            let k = choose|k: int| 0 <= k < self.free_moves().len() && self.free_moves()[k] == gm;
            let i = fields[k];
            assert(0 <= i <= 8);
            TTTGameMove::lemma_at_index(i);
        }
        if self.free(gm.index()) {
            lemma_free_below_lists_all(self.board, self.board.len() as int, gm.index());
            let k = choose|k: int| 0 <= k < fields.len() && fields[k] == gm.index();
            assert(self.free_moves()[k] == gm);
        }
    }
}

/// Whether nobody owns the field.
pub fn is_vacant(owner: &TTTPlayer) -> (vacant: bool)
    ensures
        vacant == (*owner == TTTPlayer::Nobody),
{
    *owner == TTTPlayer::Nobody
}

/// `itertools::Itertools::positions` on the fields of a board, with
/// `is_vacant` as the predicate: the indices, counted from 0 and in
/// ascending order, of the fields that nobody owns.
#[verifier::external_body]
fn vacant_positions(board: &Vec<TTTPlayer>) -> (found: Vec<usize>)
    ensures
        found@.map_values(|i: usize| i as int) == free_fields(board@),
{
    board.iter().positions(|owner| is_vacant(owner)).collect()
}

/// A board of nine fields that nobody owns.
pub fn new_board() -> (board: Vec<TTTPlayer>)
    ensures
        board@ == Seq::new(9, |i: int| TTTPlayer::Nobody),
{
    let mut v = Vec::with_capacity(9);
    for i in 0..9
        invariant
            v@ == Seq::new(i as nat, |i: int| TTTPlayer::Nobody),
    {
        v.push(TTTPlayer::Nobody);
    }
    v
}

/// Who begins: the computer or the human, chosen at random.
pub fn starting_player() -> (player: TTTPlayer)
    ensures
        player != TTTPlayer::Nobody,
{
    let mut rng = rand::thread_rng();
    let players = vec![TTTPlayer::Computer, TTTPlayer::Human];
    assert(players@[0] == TTTPlayer::Computer && players@[1] == TTTPlayer::Human);
    pick_one(players, &mut rng).unwrap()
}

impl Default for TTTGameState {
    fn default() -> (gs: Self)
        ensures
            gs@.wf(),
            gs@.board == Seq::new(9, |i: int| TTTPlayer::Nobody),
            gs@.last_move is None,
    {
        Self { next_player: starting_player(), board: new_board(), last_move: None }
    }
}

impl TTTGameState {
    /// The moves onto the free fields, in ascending order of the fields.
    pub fn legal_moves_impl(&self) -> (list: Vec<TTTGameMove>)
        requires
            self@.fits(),
        ensures
            list@ == self@.free_moves(),
    {
        let found = vacant_positions(&self.board);
        let ghost fields = free_fields(self.board@);
        let mut list: Vec<TTTGameMove> = Vec::new();
        let mut k: usize = 0;
        proof {
            lemma_free_below_lists_free(self.board@, self.board@.len() as int);
        }
        while k < found.len()
            invariant
                self@.fits(),
                fields == free_fields(self.board@),
                found@.map_values(|i: usize| i as int) == fields,
                forall|k: int|
                    0 <= k < fields.len() ==> {
                        let i = #[trigger] fields[k];
                        0 <= i < self.board@.len() && self.board@[i] == TTTPlayer::Nobody
                    },
                k <= found.len(),
                list@ == self@.free_moves().take(k as int),
            decreases found.len() - k,
        {
            let field = found[k];
            proof {
                assert(found@.map_values(|i: usize| i as int)[k as int] == field);
                assert(fields[k as int] == field);
                assert(field <= 8);
            }
            list.push(TTTGameMove::from(field));
            proof {
                assert(list@ =~= self@.free_moves().take(k + 1));
            }
            k += 1;
        }
        proof {
            assert(found@.map_values(|i: usize| i as int).len() == found@.len());
            assert(self@.free_moves().take(found.len() as int) =~= self@.free_moves());
        }
        list
    }

    /// Whether a row, a column or a diagonal belongs to one player.
    pub fn has_winner(&self) -> (won: bool)
        requires
            self@.board.len() >= 9,
        ensures
            won == self@.has_winner(),
    {
        let mut i: usize = 0;
        while i <= 6
            invariant
                self@.board.len() >= 9,
                i == 0 || i == 3 || i == 6 || i == 9,
                i >= 3 ==> !self@.line(0, 1, 2),
                i >= 6 ==> !self@.line(3, 4, 5),
                i >= 9 ==> !self@.line(6, 7, 8),
            decreases 9 - i,
        {
            if (self.board[i] == TTTPlayer::Human) || (self.board[i] == TTTPlayer::Computer) {
                if self.board[i] == self.board[i + 1] && self.board[i + 1] == self.board[i + 2] {
                    return true;
                }
            }
            i += 3;
        }

        let mut i: usize = 0;
        while i <= 2
            invariant
                self@.board.len() >= 9,
                i <= 3,
                !self@.line(0, 1, 2),
                !self@.line(3, 4, 5),
                !self@.line(6, 7, 8),
                i >= 1 ==> !self@.line(0, 3, 6),
                i >= 2 ==> !self@.line(1, 4, 7),
                i >= 3 ==> !self@.line(2, 5, 8),
            decreases 3 - i,
        {
            if (self.board[i] == TTTPlayer::Human) || (self.board[i] == TTTPlayer::Computer) {
                if self.board[i] == self.board[i + 3] && self.board[i + 3] == self.board[i + 6] {
                    return true;
                }
            }
            i += 1;
        }

        if (self.board[0] == TTTPlayer::Human) || (self.board[0] == TTTPlayer::Computer) {
            if self.board[0] == self.board[4] && self.board[4] == self.board[8] {
                return true;
            }
        }
        if (self.board[2] == TTTPlayer::Human) || (self.board[2] == TTTPlayer::Computer) {
            if self.board[2] == self.board[4] && self.board[4] == self.board[6] {
                return true;
            }
        }

        false
    }

    /// Whether no field is free.
    pub fn is_draw(&self) -> (draw: bool)
        requires
            self@.fits(),
        ensures
            draw == self@.is_draw(),
    {
        if self.legal_moves_impl().len() == 0 {
            true
        } else {
            false
        }
    }

    /// Whether the game is over.
    pub fn is_terminal(&self) -> (over: bool)
        requires
            self@.board.len() >= 9,
            self@.fits(),
        ensures
            over == self@.is_terminal(),
    {
        if self.has_winner() {
            return true;
        } else if self.is_draw() {
            return true;
        } else {
            return false;
        }
    }

    /// Who has won the game, which must be over: nobody if the board is
    /// full, else the player who is not to move next.
    pub fn get_winner(&self) -> (winner: TTTPlayer)
        requires
            self@.board.len() >= 9,
            self@.fits(),
            self@.is_terminal(),
            self@.is_draw() || self@.next_player != TTTPlayer::Nobody,
        ensures
            winner == self@.winner(),
    {
        if self.is_draw() {
            return TTTPlayer::Nobody;
        } else {
            match self.next_player {
                TTTPlayer::Human => return TTTPlayer::Computer,
                TTTPlayer::Computer => return TTTPlayer::Human,
                TTTPlayer::Nobody => unreached(),
            }
        }
    }

    /// Lets the player to move take the field of `gm`, which must be free,
    /// and passes the turn to the other player.
    pub fn exec_move_impl(self, gm: TTTGameMove) -> (next: TTTGameState)
        requires
            self@.free(gm.index()),
            self@.next_player != TTTPlayer::Nobody,
        ensures
            next@ == self@.played(gm),
    {
        let mut state = self;
        let field = gm.into();
        state.board[field] = state.next_player;
        state.last_move = Some(gm);
        match state.next_player {
            TTTPlayer::Human => state.next_player = TTTPlayer::Computer,
            TTTPlayer::Computer => state.next_player = TTTPlayer::Human,
            TTTPlayer::Nobody => unreached(),
        }
        state
    }

    /// A move onto a free field, chosen at random. There must be a free field.
    pub fn get_random_move(&self) -> (gm: TTTGameMove)
        requires
            self@.fits(),
            !self@.is_draw(),
        ensures
            self@.free_moves().contains(gm),
            self@.free(gm.index()),
    {
        let mut rng = rand::thread_rng();
        let moves = self.legal_moves_impl();
        let gm = pick_one(moves, &mut rng).unwrap();
        proof {
            self@.lemma_free_moves(gm);
        }
        gm
    }
}

} // verus!
