//! The snapshots of a game, one per accepted move, with undo.

use crate::game::{Board, Game, Move, Rejected};
use crate::player::Player;
use vstd::prelude::*;

verus! {

/// The snapshots that remain after the latest one is taken back. The first
/// snapshot is never removed.
pub open spec fn undone(snapshots: Seq<Game>) -> Seq<Game> {
    if snapshots.len() > 1 {
        snapshots.drop_last()
    } else {
        snapshots
    }
}

/// Taking back the last snapshot of a history of length 1 changes nothing. On
/// a longer history it leaves one snapshot less, and the current snapshot is
/// the one before the snapshot that was removed.
pub proof fn lemma_undone(snapshots: Seq<Game>)
    requires
        snapshots.len() >= 1,
    ensures
        undone(snapshots).len() >= 1,
        snapshots.len() == 1 ==> undone(snapshots) == snapshots,
        snapshots.len() > 1 ==> undone(snapshots).len() == snapshots.len() - 1,
        snapshots.len() > 1 ==> undone(snapshots).last() == snapshots[snapshots.len() - 2],
        undone(snapshots).is_prefix_of(snapshots),
{
}

/// Taking back a snapshot that was just appended restores the history.
pub proof fn lemma_undone_after_push(snapshots: Seq<Game>, game: Game)
    requires
        snapshots.len() >= 1,
    ensures
        undone(snapshots.push(game)) == snapshots,
{
    assert(snapshots.push(game).drop_last() =~= snapshots);
}

/// The snapshots of one game in the order in which they were reached. A
/// history is never empty: it starts with the board before the first move,
/// which no undo removes.
#[derive(Debug)]
pub struct History {
    first: Game,
    later: Vec<Game>,
}

impl View for History {
    type V = Seq<Game>;

    closed spec fn view(&self) -> Seq<Game> {
        seq![self.first] + self.later@
    }
}

impl History {
    /// A history always holds at least one snapshot.
    pub proof fn lemma_never_empty(self)
        ensures
            self@.len() >= 1,
    {
    }

    /// The history of a game in which no move has been made.
    pub fn new() -> (h: History)
        ensures
            h@.len() == 1,
            h@[0]@ == Board::initial(),
    {
        History { first: Game::default(), later: Vec::new() }
    }

    /// The number of snapshots that can be taken back: one less than the
    /// number of snapshots.
    pub fn depth(&self) -> (n: usize)
        ensures
            n == self@.len() - 1,
    {
        self.later.len()
    }

    /// The latest snapshot.
    pub fn current(&self) -> (game: Game)
        ensures
            self@.len() >= 1,
            game == self@.last(),
    {
        let n = self.later.len();
        if n == 0 {
            self.first
        } else {
            self.later[n - 1]
        }
    }

    /// Adds `game` as the latest snapshot.
    pub fn append(&mut self, game: Game)
        ensures
            final(self)@ == old(self)@.push(game),
    {
        self.later.push(game);
        assert(self@ =~= old(self)@.push(game));
    }

    /// Takes back the latest snapshot, unless it is the only one.
    pub fn undo(&mut self)
        ensures
            final(self)@ == undone(old(self)@),
    {
        if self.later.len() > 0 {
            self.later.pop();
        }
        assert(self@ =~= undone(old(self)@));
    }

    /// Plays the cell `field` on the latest snapshot, for `player` or, if
    /// `player` is `None`, for the player whose turn it is. An accepted move
    /// adds the resulting game as the latest snapshot; a rejected move leaves
    /// the history as it was.
    pub fn play(&mut self, player: Option<Player>, field: usize) -> (r: Result<(), Rejected>)
        ensures
            old(self)@.len() >= 1,
            ({
                let board = old(self)@.last()@;
                let m = Move {
                    player: match player {
                        Some(p) => p,
                        None => board.next_player,
                    },
                    field,
                };
                match board.play(m) {
                    Ok(next) => r is Ok && final(self)@.len() == old(self)@.len() + 1
                        && final(self)@.drop_last() == old(self)@ && final(self)@.last()@ == next,
                    Err(cause) => r == Err::<(), Rejected>(cause) && final(self)@ == old(self)@,
                }
            }),
    {
        let game = self.current();
        let mover = match player {
            Some(p) => p,
            None => game.get_next_player(),
        };
        match game.played(Move::new(mover, field)) {
            Ok(next) => {
                self.append(next);
                assert(final(self)@.drop_last() =~= old(self)@);
                Ok(())
            },
            Err(cause) => Err(cause),
        }
    }
}

impl Default for History {
    fn default() -> (h: History)
        ensures
            h@.len() == 1,
            h@[0]@ == Board::initial(),
    {
        History::new()
    }
}

} // verus!
