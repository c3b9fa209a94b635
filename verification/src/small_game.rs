//! Cells and sub-boards.

use crate::line::{owners_of, winner, winner_of, Mark};
use crate::player::Player;
use vstd::prelude::*;

verus! {

/// One cell of a sub-board: marked by a player, or empty.
#[derive(Debug, Clone, Copy, PartialEq, Eq, PartialOrd, Ord, Structural)]
pub enum Field {
    Cross,
    Circle,
    Empty,
}

impl Field {
    /// The mark that `player` leaves in a cell.
    pub open spec fn of_spec(player: Player) -> Field {
        match player {
            Player::Cross => Field::Cross,
            Player::Circle => Field::Circle,
        }
    }

    /// The mark that `player` leaves in a cell.
    #[verifier::when_used_as_spec(of_spec)]
    pub fn of(player: Player) -> (f: Field)
        ensures
            f == Field::of_spec(player),
    {
        match player {
            Player::Cross => Field::Cross,
            Player::Circle => Field::Circle,
        }
    }
}

impl Default for Field {
    fn default() -> (f: Field)
        ensures
            f == Field::Empty,
    {
        Field::Empty
    }
}

impl Mark for Field {
    open spec fn owner_spec(&self) -> Option<Player> {
        match self {
            Field::Cross => Some(Player::Cross),
            Field::Circle => Some(Player::Circle),
            Field::Empty => None,
        }
    }

    fn owner(&self) -> (o: Option<Player>) {
        match self {
            Field::Cross => Some(Player::Cross),
            Field::Circle => Some(Player::Circle),
            Field::Empty => None,
        }
    }
}

/// The mathematical model of a sub-board: nine cells in row-major order while
/// it is still being played, or its final result.
pub enum SubBoard {
    Unfinished(Seq<Field>),
    Cross,
    Circle,
    Draw,
}

impl SubBoard {
    /// A sub-board in play has exactly nine cells.
    pub open spec fn wf(self) -> bool {
        self matches SubBoard::Unfinished(cells) ==> cells.len() == 9
    }

    /// The sub-board with nine empty cells.
    pub open spec fn empty() -> SubBoard {
        SubBoard::Unfinished(Seq::new(9, |i: int| Field::Empty))
    }

    /// The sub-board that `player` has won.
    pub open spec fn won_by(player: Player) -> SubBoard {
        match player {
            Player::Cross => SubBoard::Cross,
            Player::Circle => SubBoard::Circle,
        }
    }

    /// A sub-board is finished once it is won or drawn.
    pub open spec fn is_finished(self) -> bool {
        !(self is Unfinished)
    }

    /// The player who has won this sub-board, if any. A drawn sub-board and
    /// one still in play belong to nobody.
    pub open spec fn owner(self) -> Option<Player> {
        match self {
            SubBoard::Cross => Some(Player::Cross),
            SubBoard::Circle => Some(Player::Circle),
            _ => None,
        }
    }

    /// The cell `index` of a sub-board in play is free.
    pub open spec fn is_free(self, index: int) -> bool {
        self matches SubBoard::Unfinished(cells) && cells[index] == Field::Empty
    }

    /// The sub-board in play after `player` has marked the cell `index`,
    /// before it is evaluated.
    pub open spec fn mark(self, index: int, player: Player) -> SubBoard
        recommends
            self is Unfinished,
    {
        SubBoard::Unfinished(self->Unfinished_0.update(index, Field::of_spec(player)))
    }

    /// Evaluation of a sub-board. A finished sub-board stays as it is. One in
    /// play is won by the owner of its first complete line; without a
    /// complete line it is drawn when no cell is empty, and unchanged
    /// otherwise.
    pub open spec fn evaluate(self) -> SubBoard {
        match self {
            SubBoard::Unfinished(cells) => match winner_of(owners_of(cells)) {
                Some(player) => SubBoard::won_by(player),
                None => if cells.contains(Field::Empty) {
                    self
                } else {
                    SubBoard::Draw
                },
            },
            _ => self,
        }
    }

    /// Evaluation has nothing left to record on this sub-board.
    pub open spec fn settled(self) -> bool {
        self.evaluate() == self
    }

    /// A finished sub-board is a fixed point of evaluation.
    pub proof fn lemma_finished_is_fixed(self)
        requires
            self.is_finished(),
        ensures
            self.evaluate() == self,
    {
    }

    /// Evaluating twice gives what evaluating once gives, so every evaluated
    /// sub-board is settled.
    pub proof fn lemma_evaluate_idempotent(self)
        ensures
            self.evaluate().evaluate() == self.evaluate(),
            self.evaluate().settled(),
            self.wf() ==> self.evaluate().wf(),
    {
    }

    /// A settled sub-board in play has an empty cell and no complete line.
    pub proof fn lemma_settled_has_free_cell(self)
        requires
            self.wf(),
            self.settled(),
            self is Unfinished,
        ensures
            exists|index: int| 0 <= index < 9 && #[trigger] self.is_free(index),
            winner_of(owners_of(self->Unfinished_0)) is None,
    {
        let cells = self->Unfinished_0;
        assert(cells.contains(Field::Empty));
        let index = choose|index: int| 0 <= index < cells.len() && cells[index] == Field::Empty;
        assert(self.is_free(index));
    }
}

/// One of the nine sub-boards: its cells while it is being played, its result
/// afterwards.
#[derive(Debug, Clone, Copy, PartialEq, Eq, PartialOrd, Ord)]
pub enum SmallGame {
    Unfinished([Field; 9]),
    Cross,
    Circle,
    Draw,
}

impl View for SmallGame {
    type V = SubBoard;

    open spec fn view(&self) -> SubBoard {
        match self {
            SmallGame::Unfinished(cells) => SubBoard::Unfinished(cells@),
            SmallGame::Cross => SubBoard::Cross,
            SmallGame::Circle => SubBoard::Circle,
            SmallGame::Draw => SubBoard::Draw,
        }
    }
}

impl Mark for SmallGame {
    open spec fn owner_spec(&self) -> Option<Player> {
        self@.owner()
    }

    fn owner(&self) -> (o: Option<Player>) {
        match self {
            SmallGame::Cross => Some(Player::Cross),
            SmallGame::Circle => Some(Player::Circle),
            _ => None,
        }
    }
}

/// Whether one of the nine cells is empty.
fn has_empty_cell(cells: &[Field; 9]) -> (found: bool)
    ensures
        found == cells@.contains(Field::Empty),
{
    let mut i: usize = 0;
    while i < 9
        invariant
            i <= 9,
            forall|j: int| 0 <= j < i ==> cells@[j] != Field::Empty,
        decreases 9 - i,
    {
        if cells[i] == Field::Empty {
            return true;
        }
        i += 1;
    }
    false
}

impl SmallGame {
    /// Whether this sub-board is won or drawn.
    pub fn is_finished(&self) -> (finished: bool)
        ensures
            finished == self@.is_finished(),
    {
        match self {
            SmallGame::Unfinished(_) => false,
            _ => true,
        }
    }

    /// The sub-board that `player` has won.
    pub fn won_by(player: Player) -> (s: SmallGame)
        ensures
            s@ == SubBoard::won_by(player),
    {
        match player {
            Player::Cross => SmallGame::Cross,
            Player::Circle => SmallGame::Circle,
        }
    }

    /// Evaluates this sub-board: records a win or a draw if its cells show
    /// one, and returns it unchanged otherwise.
    pub fn update(self) -> (s: SmallGame)
        ensures
            s@ == self@.evaluate(),
            s@ == self@ ==> s == self,
    {
        match self {
            SmallGame::Unfinished(cells) => {
                match winner(&cells) {
                    Some(player) => SmallGame::won_by(player),
                    None => if has_empty_cell(&cells) {
                        self
                    } else {
                        SmallGame::Draw
                    },
                }
            },
            _ => self,
        }
    }
}

impl Default for SmallGame {
    /// The sub-board with nine empty cells.
    fn default() -> (s: SmallGame)
        ensures
            s@ == SubBoard::empty(),
    {
        let cells = [
            Field::Empty,
            Field::Empty,
            Field::Empty,
            Field::Empty,
            Field::Empty,
            Field::Empty,
            Field::Empty,
            Field::Empty,
            Field::Empty,
        ];
        assert(cells@ =~= Seq::new(9, |i: int| Field::Empty));
        SmallGame::Unfinished(cells)
    }
}

/// Two sub-boards with the same model are the same sub-board.
pub proof fn lemma_small_game_view_injective(a: SmallGame, b: SmallGame)
    requires
        a@ == b@,
    ensures
        a == b,
{
    match (a, b) {
        (SmallGame::Unfinished(x), SmallGame::Unfinished(y)) => {
            assert(x =~= y);
        },
        _ => {},
    }
}

} // verus!
