//! The three-in-a-row scan shared by the sub-boards and the grid of
//! sub-boards.
//!
//! A grid is nine slots in row-major order. Each slot is owned by a player or
//! by nobody. A line is complete when its three slots have the same owner, and
//! the first complete line in the order of [`WIN_CONDITIONS`] names the winner.

use crate::player::Player;
use vstd::prelude::*;

verus! {

/// The eight lines of a 3x3 grid: rows, then columns, then the two diagonals.
pub const WIN_CONDITIONS: [[usize; 3]; 8] = [
    [0, 1, 2],
    [3, 4, 5],
    [6, 7, 8],
    [0, 3, 6],
    [1, 4, 7],
    [2, 5, 8],
    [0, 4, 8],
    [2, 4, 6],
];

/// A slot of a grid that a player may own.
pub trait Mark {
    /// The player who owns this slot, if any.
    spec fn owner_spec(&self) -> Option<Player>;

    /// The player who owns this slot, if any.
    fn owner(&self) -> (o: Option<Player>)
        ensures
            o == self.owner_spec(),
    ;
}

/// The owners of the slots of a grid, slot by slot.
pub open spec fn owners_of<M: Mark>(slots: Seq<M>) -> Seq<Option<Player>> {
    Seq::new(slots.len(), |i: int| slots[i].owner_spec())
}

/// The player who owns all three slots of line `k`, if there is one.
pub open spec fn line_owner(owners: Seq<Option<Player>>, k: int) -> Option<Player>
    recommends
        0 <= k < 8,
        owners.len() == 9,
{
    let a = owners[WIN_CONDITIONS[k][0] as int];
    let b = owners[WIN_CONDITIONS[k][1] as int];
    let c = owners[WIN_CONDITIONS[k][2] as int];
    if a is Some && a == b && b == c {
        a
    } else {
        None
    }
}

/// The owner of the first complete line among the lines `from..8`.
pub open spec fn first_line_from(owners: Seq<Option<Player>>, from: int) -> Option<Player>
    decreases 8 - from,
{
    if from < 0 || from >= 8 {
        None
    } else if line_owner(owners, from) is Some {
        line_owner(owners, from)
    } else {
        first_line_from(owners, from + 1)
    }
}

/// The winner of a grid: the owner of its first complete line.
pub open spec fn winner_of(owners: Seq<Option<Player>>) -> Option<Player> {
    first_line_from(owners, 0)
}

/// `winner_of` is `Some(p)` exactly when some line is complete for `p` and no
/// earlier line is complete; it is `None` exactly when no line is complete.
pub proof fn lemma_winner_of(owners: Seq<Option<Player>>)
    ensures
        match winner_of(owners) {
            Some(p) => exists|k: int|
                0 <= k < 8 && #[trigger] line_owner(owners, k) == Some(p) && forall|j: int|
                    0 <= j < k ==> #[trigger] line_owner(owners, j) is None,
            None => forall|k: int| 0 <= k < 8 ==> #[trigger] line_owner(owners, k) is None,
        },
{
    lemma_first_line_from(owners, 0);
}

proof fn lemma_first_line_from(owners: Seq<Option<Player>>, from: int)
    requires
        0 <= from <= 8,
    ensures
        match first_line_from(owners, from) {
            Some(p) => exists|k: int|
                from <= k < 8 && #[trigger] line_owner(owners, k) == Some(p) && forall|j: int|
                    from <= j < k ==> #[trigger] line_owner(owners, j) is None,
            None => forall|k: int| from <= k < 8 ==> #[trigger] line_owner(owners, k) is None,
        },
    decreases 8 - from,
{
    if from < 8 && line_owner(owners, from) is None {
        lemma_first_line_from(owners, from + 1);
    }
}

/// The common owner of three slots, if they have one.
fn common_owner(a: Option<Player>, b: Option<Player>, c: Option<Player>) -> (o: Option<Player>)
    ensures
        o == if a is Some && a == b && b == c {
            a
        } else {
            None
        },
{
    match (a, b, c) {
        (Some(p), Some(q), Some(r)) => if p == q && q == r {
            Some(p)
        } else {
            None
        },
        _ => None,
    }
}

/// Scans the eight lines of `slots` in order and returns the owner of the
/// first complete one.
pub fn winner<M: Mark>(slots: &[M; 9]) -> (w: Option<Player>)
    ensures
        w == winner_of(owners_of(slots@)),
{
    let ghost owners = owners_of(slots@);
    let mut k: usize = 0;
    while k < 8
        invariant
            k <= 8,
            owners == owners_of(slots@),
            winner_of(owners) == first_line_from(owners, k as int),
        decreases 8 - k,
    {
        let line = WIN_CONDITIONS[k];
        let found = common_owner(
            slots[line[0]].owner(),
            slots[line[1]].owner(),
            slots[line[2]].owner(),
        );
        assert(found == line_owner(owners, k as int));
        if found.is_some() {
            return found;
        }
        k += 1;
    }
    None
}

} // verus!
