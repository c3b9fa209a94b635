//! The board, its moves and its result.
//!
//! [`Board`] is the mathematical model of a game: the rules are its spec
//! functions [`Board::rejection`], [`Board::after`] and [`Board::outcome`].
//! [`Game`] is the value that programs hold; each of its methods is specified
//! by the corresponding function of its model.

use crate::line::{owners_of, winner, winner_of};
use crate::player::Player;
use crate::small_game::{Field, SmallGame, SubBoard};
use vstd::prelude::*;

verus! {

/// A move: `player` marks the cell `field`, where `field / 9` is the
/// sub-board and `field % 9` the cell inside it.
#[derive(Debug, Clone, Copy, PartialEq, Eq, Structural)]
pub struct Move {
    pub player: Player,
    pub field: usize,
}

impl Move {
    pub fn new(player: Player, field: usize) -> (m: Move)
        ensures
            m.player == player,
            m.field == field,
    {
        Move { player, field }
    }

    /// The index of the sub-board that this move plays in.
    pub open spec fn sub_board(self) -> int {
        self.field as int / 9
    }

    /// The index of the cell that this move marks inside its sub-board.
    pub open spec fn cell(self) -> int {
        self.field as int % 9
    }
}

impl Default for Move {
    fn default() -> (m: Move)
        ensures
            m.player == Player::Cross,
            m.field == 0,
    {
        Move { player: Player::Cross, field: 0 }
    }
}

/// Where the player to move may play: in any sub-board that is not finished,
/// or only in the sub-board with the given index.
#[derive(Debug, Clone, Copy, PartialEq, Eq, Structural)]
pub enum NextMove {
    Everywhere,
    Field(usize),
}

impl NextMove {
    /// Whether this constraint lets the player to move play in the sub-board
    /// with index `sub_board`.
    pub open spec fn allows_spec(self, sub_board: usize) -> bool {
        match self {
            NextMove::Everywhere => true,
            NextMove::Field(required) => required == sub_board,
        }
    }

    /// Whether this constraint lets the player to move play in the sub-board
    /// with index `sub_board`.
    #[verifier::when_used_as_spec(allows_spec)]
    pub fn allows(self, sub_board: usize) -> (allowed: bool)
        ensures
            allowed == self.allows_spec(sub_board),
    {
        match self {
            NextMove::Everywhere => true,
            NextMove::Field(required) => required == sub_board,
        }
    }
}

impl Default for NextMove {
    fn default() -> (n: NextMove)
        ensures
            n == NextMove::Everywhere,
    {
        NextMove::Everywhere
    }
}

/// The result of the whole game.
#[derive(Debug, Clone, Copy, PartialEq, Eq, Structural)]
pub enum Winner {
    Draw,
    Cross,
    Circle,
    InProgress,
}

impl Winner {
    /// The result of a game that `player` has won.
    pub open spec fn of_spec(player: Player) -> Winner {
        match player {
            Player::Cross => Winner::Cross,
            Player::Circle => Winner::Circle,
        }
    }

    /// The result of a game that `player` has won.
    #[verifier::when_used_as_spec(of_spec)]
    pub fn of(player: Player) -> (w: Winner)
        ensures
            w == Winner::of_spec(player),
    {
        match player {
            Player::Cross => Winner::Cross,
            Player::Circle => Winner::Circle,
        }
    }
}

impl Default for Winner {
    fn default() -> (w: Winner)
        ensures
            w == Winner::InProgress,
    {
        Winner::InProgress
    }
}

/// Why a move was not accepted.
#[derive(Debug, Clone, Copy, PartialEq, Eq, Structural)]
pub enum Rejected {
    /// The move names a cell outside the 81 cells of the board.
    InvalidCell,
    /// It is the other player's turn.
    WrongTurn,
    /// The player has to answer in another sub-board.
    WrongSubBoard,
    /// The sub-board is already won or drawn.
    SubBoardFinished,
    /// The cell is already marked.
    CellOccupied,
}

/// The mathematical model of a game: the nine sub-boards in row-major order,
/// the constraint on the next move, and the player to move.
pub struct Board {
    pub boards: Seq<SubBoard>,
    pub next_move: NextMove,
    pub next_player: Player,
}

impl Board {
    /// The board before the first move: every cell empty, `Cross` to move,
    /// anywhere.
    pub open spec fn initial() -> Board {
        Board {
            boards: Seq::new(9, |i: int| SubBoard::empty()),
            next_move: NextMove::Everywhere,
            next_player: Player::Cross,
        }
    }

    /// The invariant of a board: it has nine sub-boards, each with its result
    /// recorded as soon as its cells show one, and a move is only ever forced
    /// into a sub-board that is still in play.
    pub open spec fn wf(self) -> bool {
        &&& self.boards.len() == 9
        &&& forall|i: int|
            0 <= i < 9 ==> (#[trigger] self.boards[i]).wf() && self.boards[i].settled()
        &&& self.next_move matches NextMove::Field(required) ==> required < 9
            && self.boards[required as int] is Unfinished
    }

    /// Why `m` is not accepted on this board, or `None` if it is. The checks
    /// come in this order: the cell exists, it is the player's turn, the
    /// sub-board is the one that the player is forced into (if any), the
    /// sub-board is still in play, the cell is empty.
    pub open spec fn rejection(self, m: Move) -> Option<Rejected> {
        if m.field >= 81 {
            Some(Rejected::InvalidCell)
        } else if m.player != self.next_player {
            Some(Rejected::WrongTurn)
        } else if !self.next_move.allows_spec(m.field / 9) {
            Some(Rejected::WrongSubBoard)
        } else if self.boards[m.sub_board()].is_finished() {
            Some(Rejected::SubBoardFinished)
        } else if !self.boards[m.sub_board()].is_free(m.cell()) {
            Some(Rejected::CellOccupied)
        } else {
            None
        }
    }

    /// The board after the accepted move `m`: the cell is marked and its
    /// sub-board evaluated, the turn passes to the opponent, and the next
    /// move is forced into the sub-board whose index is that of the marked
    /// cell, unless that sub-board is finished.
    pub open spec fn after(self, m: Move) -> Board
        recommends
            self.rejection(m) is None,
    {
        let boards = self.boards.update(
            m.sub_board(),
            self.boards[m.sub_board()].mark(m.cell(), m.player).evaluate(),
        );
        Board {
            boards,
            next_move: if boards[m.cell()].is_finished() {
                NextMove::Everywhere
            } else {
                NextMove::Field(m.cell() as usize)
            },
            next_player: m.player.other_spec(),
        }
    }

    /// The transition of the game: the next board, or the reason for which
    /// the move is rejected.
    pub open spec fn play(self, m: Move) -> Result<Board, Rejected> {
        match self.rejection(m) {
            Some(cause) => Err(cause),
            None => Ok(self.after(m)),
        }
    }

    /// The players who have won the sub-boards, sub-board by sub-board.
    pub open spec fn owners(self) -> Seq<Option<Player>> {
        Seq::new(self.boards.len(), |i: int| self.boards[i].owner())
    }

    /// Whether a sub-board is still in play.
    pub open spec fn has_unfinished(self) -> bool {
        exists|i: int| 0 <= i < self.boards.len() && (#[trigger] self.boards[i]) is Unfinished
    }

    /// The result of the game: the owner of the first complete line of won
    /// sub-boards; without one, a draw if every sub-board is finished, and
    /// still in progress otherwise.
    pub open spec fn outcome(self) -> Winner {
        match winner_of(self.owners()) {
            Some(player) => Winner::of_spec(player),
            None => if self.has_unfinished() {
                Winner::InProgress
            } else {
                Winner::Draw
            },
        }
    }

    /// The result is a function of the board alone: two evaluations of the
    /// same board give the same result.
    pub proof fn lemma_outcome_is_stable(self, first: Winner, second: Winner)
        requires
            first == self.outcome(),
            second == self.outcome(),
        ensures
            first == second,
    {
    }

    /// The board reached from the initial one by the moves `moves`, if each
    /// of them is accepted in its turn.
    pub open spec fn replay(moves: Seq<Move>) -> Option<Board>
        decreases moves.len(),
    {
        if moves.len() == 0 {
            Some(Board::initial())
        } else {
            match Board::replay(moves.drop_last()) {
                Some(board) => match board.play(moves.last()) {
                    Ok(next) => Some(next),
                    Err(_) => None,
                },
                None => None,
            }
        }
    }

    /// The player to move after `n` accepted moves.
    pub open spec fn mover(n: nat) -> Player {
        if n % 2 == 0 {
            Player::Cross
        } else {
            Player::Circle
        }
    }

    /// The initial board satisfies the invariant.
    pub proof fn lemma_initial_wf()
        ensures
            Board::initial().wf(),
            Board::initial().outcome() == Winner::InProgress,
    {
        let b = Board::initial();
        let cells = Seq::new(9, |i: int| Field::Empty);
        let owners = owners_of(cells);
        assert(cells[0] == Field::Empty);
        assert(cells.contains(Field::Empty));
        assert(owners[0] is None && owners[1] is None && owners[2] is None && owners[3] is None
            && owners[4] is None && owners[6] is None);
        reveal_with_fuel(crate::line::first_line_from, 9);
        assert(winner_of(owners) is None);
        assert(SubBoard::empty().settled());
        assert forall|i: int| 0 <= i < 9 implies (#[trigger] b.boards[i]).wf()
            && b.boards[i].settled() by {}
        let o = b.owners();
        assert(o[0] is None && o[1] is None && o[2] is None && o[3] is None && o[4] is None
            && o[6] is None);
        assert(winner_of(o) is None);
        assert(b.boards[0] is Unfinished);
    }

    /// An accepted move keeps the invariant.
    pub proof fn lemma_play_preserves_wf(self, m: Move)
        requires
            self.wf(),
            self.play(m) is Ok,
        ensures
            self.play(m)->Ok_0.wf(),
    {
        let next = self.after(m);
        let placed = self.boards[m.sub_board()].mark(m.cell(), m.player);
        placed.lemma_evaluate_idempotent();
        assert forall|i: int| 0 <= i < 9 implies (#[trigger] next.boards[i]).wf()
            && next.boards[i].settled() by {
            if i != m.sub_board() {
                assert(next.boards[i] == self.boards[i]);
            }
        }
    }

    /// An accepted move names a cell of the board, is made by the player to
    /// move, and marks a free cell of a sub-board in play, which is the forced
    /// one if a sub-board is forced.
    pub proof fn lemma_accepted_move(self, m: Move)
        requires
            self.play(m) is Ok,
        ensures
            m.field < 81,
            m.player == self.next_player,
            self.next_move.allows_spec(m.field / 9),
            self.boards[m.sub_board()].is_free(m.cell()),
    {
    }

    /// Turn alternation, one step: an accepted move passes the turn to the
    /// opponent of the player who made it.
    pub proof fn lemma_play_passes_turn(self, m: Move)
        requires
            self.play(m) is Ok,
        ensures
            self.play(m)->Ok_0.next_player == self.next_player.other_spec(),
            self.play(m)->Ok_0.next_player != self.next_player,
    {
    }

    /// Turn alternation: along any sequence of accepted moves from the
    /// initial board, `Cross` is to move after an even number of moves and
    /// `Circle` after an odd number, and the players of the moves alternate
    /// in the same way. Every board on the way satisfies the invariant.
    pub proof fn lemma_turns_alternate(moves: Seq<Move>)
        requires
            Board::replay(moves) is Some,
        ensures
            Board::replay(moves)->Some_0.next_player == Board::mover(moves.len()),
            Board::replay(moves)->Some_0.wf(),
            forall|n: int|
                0 <= n < moves.len() ==> (#[trigger] moves[n]).player == Board::mover(n as nat),
            forall|n: int|
                0 <= n <= moves.len() ==> (#[trigger] Board::replay(moves.take(n))) is Some
                    && Board::replay(moves.take(n))->Some_0.next_player == Board::mover(n as nat),
        decreases moves.len(),
    {
        if moves.len() == 0 {
            Board::lemma_initial_wf();
            assert(moves.take(0) =~= moves);
        } else {
            let front = moves.drop_last();
            let board = Board::replay(front)->Some_0;
            Board::lemma_turns_alternate(front);
            board.lemma_play_preserves_wf(moves.last());
            assert forall|n: int| 0 <= n < moves.len() implies (#[trigger] moves[n]).player
                == Board::mover(n as nat) by {
                if n < front.len() {
                    assert(front[n] == moves[n]);
                }
            }
            assert forall|n: int| 0 <= n <= moves.len() implies (#[trigger] Board::replay(
                moves.take(n),
            )) is Some && Board::replay(moves.take(n))->Some_0.next_player == Board::mover(
                n as nat,
            ) by {
                if n == moves.len() {
                    assert(moves.take(n) =~= moves);
                } else {
                    assert(moves.take(n) =~= front.take(n));
                }
            }
        }
    }

    /// The forced-move rule: after an accepted move into the cell `c` of some
    /// sub-board, the next move is forced into sub-board `c` if that
    /// sub-board is still in play, and free otherwise. Only the sub-board
    /// that was played in has changed.
    pub proof fn lemma_forced_move(self, m: Move)
        requires
            self.boards.len() == 9,
            self.play(m) is Ok,
        ensures
            ({
                let next = self.play(m)->Ok_0;
                &&& next.boards.len() == 9
                &&& next.boards[m.cell()] is Unfinished ==> next.next_move == NextMove::Field(
                    m.cell() as usize,
                )
                &&& next.boards[m.cell()].is_finished() ==> next.next_move == NextMove::Everywhere
                &&& forall|i: int|
                    0 <= i < 9 && i != m.sub_board() ==> next.boards[i] == self.boards[i]
            }),
    {
    }

    /// A finished sub-board is never opened again: no accepted move changes
    /// it.
    pub proof fn lemma_finished_stays(self, m: Move, i: int)
        requires
            self.boards.len() == 9,
            0 <= i < 9,
            self.boards[i].is_finished(),
            self.play(m) is Ok,
        ensures
            self.play(m)->Ok_0.boards[i] == self.boards[i],
    {
    }

    /// A board that satisfies the invariant and is not yet decided offers a
    /// move to the player whose turn it is.
    pub proof fn lemma_move_available(self) -> (m: Move)
        requires
            self.wf(),
            self.outcome() == Winner::InProgress,
        ensures
            self.play(m) is Ok,
    {
        let sb: int = match self.next_move {
            NextMove::Field(required) => required as int,
            NextMove::Everywhere => choose|i: int|
                0 <= i < self.boards.len() && (#[trigger] self.boards[i]) is Unfinished,
        };
        self.boards[sb].lemma_settled_has_free_cell();
        let cell = choose|index: int| 0 <= index < 9 && #[trigger] self.boards[sb].is_free(index);
        let m = Move { player: self.next_player, field: (sb * 9 + cell) as usize };
        assert(m.sub_board() == sb && m.cell() == cell);
        m
    }
}

/// The model of a game with the given parts.
pub open spec fn board_of(field: [SmallGame; 9], next_move: NextMove, next_player: Player) -> Board {
    Board { boards: Seq::new(9, |i: int| field[i]@), next_move, next_player }
}

/// A game of Super Tic-Tac-Toe between two moves. Every value of this type
/// satisfies the invariant [`Board::wf`] of its model.
#[derive(Debug, Clone, Copy, PartialEq, Eq)]
pub struct Game {
    field: [SmallGame; 9],
    next_move: NextMove,
    next_player: Player,
}

impl View for Game {
    type V = Board;

    closed spec fn view(&self) -> Board {
        board_of(self.field, self.next_move, self.next_player)
    }
}

/// Whether the sub-board has its result recorded if its cells show one.
fn is_settled(small: &SmallGame) -> (settled: bool)
    ensures
        settled == small@.settled(),
{
    small.is_finished() || !small.update().is_finished()
}

impl Game {
    #[verifier::type_invariant]
    closed spec fn inv(self) -> bool {
        self@.wf()
    }

    /// The game with the given sub-boards, constraint and player to move, or
    /// `None` if these do not satisfy the invariant of a board.
    pub fn from_parts(field: [SmallGame; 9], next_move: NextMove, next_player: Player) -> (g:
        Option<Game>)
        ensures
            match g {
                Some(game) => game@ == board_of(field, next_move, next_player) && game@.wf(),
                None => !board_of(field, next_move, next_player).wf(),
            },
    {
        let ghost board = board_of(field, next_move, next_player);
        let mut i: usize = 0;
        while i < 9
            invariant
                i <= 9,
                board == board_of(field, next_move, next_player),
                forall|j: int| 0 <= j < i ==> (#[trigger] board.boards[j]).settled(),
            decreases 9 - i,
        {
            if !is_settled(&field[i]) {
                assert(!board.boards[i as int].settled());
                return None;
            }
            i += 1;
        }
        match next_move {
            NextMove::Field(required) => {
                if required >= 9 || field[required].is_finished() {
                    return None;
                }
            },
            NextMove::Everywhere => {},
        }
        Some(Game { field, next_move, next_player })
    }

    /// The nine sub-boards in row-major order.
    pub fn get_field(&self) -> (field: &[SmallGame; 9])
        ensures
            forall|i: int| 0 <= i < 9 ==> (#[trigger] field[i])@ == self@.boards[i],
            self@.boards.len() == 9,
    {
        &self.field
    }

    /// The constraint on the next move. A forced sub-board is always one
    /// that is still in play.
    pub fn get_next_move(&self) -> (next_move: NextMove)
        ensures
            next_move == self@.next_move,
            self@.wf(),
    {
        proof {
            use_type_invariant(self);
        }
        self.next_move
    }

    /// The player to move.
    pub fn get_next_player(&self) -> (player: Player)
        ensures
            player == self@.next_player,
    {
        self.next_player
    }

    /// For each sub-board, whether it is won or drawn.
    pub fn get_finished_fields(&self) -> (finished: [bool; 9])
        ensures
            forall|i: int| 0 <= i < 9 ==> finished[i] == self@.boards[i].is_finished(),
    {
        let mut finished = [false, false, false, false, false, false, false, false, false];
        let mut i: usize = 0;
        while i < 9
            invariant
                i <= 9,
                forall|j: int| 0 <= j < i ==> finished[j] == self@.boards[j].is_finished(),
            decreases 9 - i,
        {
            finished[i] = self.field[i].is_finished();
            i += 1;
        }
        finished
    }

    /// Plays the move `play`. An accepted move changes the game as
    /// [`Board::after`] says; a rejected move leaves the game as it was and
    /// returns the reason that [`Board::rejection`] gives.
    pub fn play(&mut self, play: Move) -> (r: Result<(), Rejected>)
        ensures
            match old(self)@.play(play) {
                Ok(next) => r is Ok && final(self)@ == next,
                Err(cause) => r == Err::<(), Rejected>(cause) && *final(self) == *old(self),
            },
    {
        proof {
            use_type_invariant(&*self);
        }
        if play.field >= 81 {
            return Err(Rejected::InvalidCell);
        }
        if play.player != self.next_player {
            return Err(Rejected::WrongTurn);
        }
        let sub_board = play.field / 9;
        let cell = play.field % 9;
        if !self.next_move.allows(sub_board) {
            return Err(Rejected::WrongSubBoard);
        }
        let mut cells = match self.field[sub_board] {
            SmallGame::Unfinished(cells) => cells,
            _ => {
                return Err(Rejected::SubBoardFinished);
            },
        };
        if cells[cell] != Field::Empty {
            return Err(Rejected::CellOccupied);
        }
        cells[cell] = Field::of(play.player);
        let mut field = self.field;
        field[sub_board] = SmallGame::Unfinished(cells).update();
        let next_move = if field[cell].is_finished() {
            NextMove::Everywhere
        } else {
            NextMove::Field(cell)
        };
        let next_player = play.player.other();
        proof {
            let next = old(self)@.after(play);
            assert(board_of(field, next_move, next_player).boards =~= next.boards);
            old(self)@.lemma_play_preserves_wf(play);
        }
        *self = Game { field, next_move, next_player };
        Ok(())
    }

    /// The game after the move `play`, or the reason for which the move is
    /// rejected. This game itself stays as it is.
    pub fn played(&self, play: Move) -> (r: Result<Game, Rejected>)
        ensures
            match self@.play(play) {
                Ok(next) => r matches Ok(game) && game@ == next,
                Err(cause) => r == Err::<Game, Rejected>(cause),
            },
    {
        let mut game = *self;
        match game.play(play) {
            Ok(()) => Ok(game),
            Err(cause) => Err(cause),
        }
    }

    /// The result of the game as it stands.
    pub fn get_winner(&self) -> (w: Winner)
        ensures
            w == self@.outcome(),
    {
        assert(owners_of(self.field@) =~= self@.owners());
        match winner(&self.field) {
            Some(player) => Winner::of(player),
            None => {
                let mut i: usize = 0;
                while i < 9
                    invariant
                        i <= 9,
                        winner_of(self@.owners()) is None,
                        self@.boards.len() == 9,
                        forall|j: int| 0 <= j < i ==> !((#[trigger] self@.boards[j]) is Unfinished),
                    decreases 9 - i,
                {
                    if !self.field[i].is_finished() {
                        assert(self@.boards[i as int] is Unfinished);
                        return Winner::InProgress;
                    }
                    i += 1;
                }
                Winner::Draw
            },
        }
    }
}

impl Default for Game {
    /// The game before the first move.
    fn default() -> (g: Game)
        ensures
            g@ == Board::initial(),
    {
        let empty = SmallGame::default();
        let field = [empty, empty, empty, empty, empty, empty, empty, empty, empty];
        proof {
            Board::lemma_initial_wf();
            assert(board_of(field, NextMove::Everywhere, Player::Cross).boards
                =~= Board::initial().boards);
        }
        Game { field, next_move: NextMove::Everywhere, next_player: Player::Cross }
    }
}

/// Two games with the same model are the same game.
pub proof fn lemma_game_view_injective(a: Game, b: Game)
    requires
        a@ == b@,
    ensures
        a == b,
{
    assert forall|i: int| 0 <= i < 9 implies a.field[i] == b.field[i] by {
        assert(a@.boards[i] == a.field[i]@);
        assert(b@.boards[i] == b.field[i]@);
        crate::small_game::lemma_small_game_view_injective(a.field[i], b.field[i]);
    }
    assert(a.field =~= b.field);
}

} // verus!
