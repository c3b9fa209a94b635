//! The binary form of a game.
//!
//! A game is written as its nine sub-boards in row-major order, the
//! constraint on the next move, and the player to move:
//!
//! * a sub-board in play is the byte 0 followed by its nine cells, one byte
//!   each (0 for a cross, 1 for a circle, 2 for an empty cell); a sub-board
//!   won by `Cross` is the byte 1, one won by `Circle` the byte 2, a drawn
//!   one the byte 3;
//! * a free next move is the byte 0; a forced one is the byte 1 followed by
//!   the index of the sub-board as eight bytes, least significant first;
//! * the player to move is the byte 0 for `Cross` and 1 for `Circle`.
//!
//! [`encoding`] and [`decoding`] define the format; [`lemma_round_trip`] and
//! [`lemma_decoding_is_canonical`] show that they are inverse to each other
//! on the boards that satisfy the invariant.

use crate::game::{board_of, Board, Game, NextMove};
use crate::player::Player;
use crate::small_game::{Field, SmallGame, SubBoard};
use vstd::bytes::{
    lemma_auto_spec_u64_to_from_le_bytes, spec_u64_from_le_bytes, spec_u64_to_le_bytes,
    u64_from_le_bytes, u64_to_le_bytes,
};
use vstd::prelude::*;
use vstd::slice::slice_subrange;

verus! {

/// Why a sequence of bytes is not the binary form of a game.
#[derive(Debug, Clone, Copy, PartialEq, Eq, Structural)]
pub enum DecodeError {
    /// The bytes end before the game is complete.
    UnexpectedEnd,
    /// A byte that selects a variant is outside the values of its type.
    InvalidTag,
    /// Bytes follow the end of the game.
    TrailingBytes,
    /// The bytes describe a board that breaks the invariant of a board.
    Inconsistent,
}

/// The byte that stands for a cell.
pub open spec fn field_tag(field: Field) -> u8 {
    match field {
        Field::Cross => 0,
        Field::Circle => 1,
        Field::Empty => 2,
    }
}

/// The cell that a byte stands for.
pub open spec fn field_of_tag(tag: u8) -> Option<Field> {
    if tag == 0 {
        Some(Field::Cross)
    } else if tag == 1 {
        Some(Field::Circle)
    } else if tag == 2 {
        Some(Field::Empty)
    } else {
        None
    }
}

/// The byte that stands for a player.
pub open spec fn player_tag(player: Player) -> u8 {
    match player {
        Player::Cross => 0,
        Player::Circle => 1,
    }
}

/// The binary form of the cells of a sub-board.
pub open spec fn encode_cells(cells: Seq<Field>) -> Seq<u8> {
    Seq::new(cells.len(), |i: int| field_tag(cells[i]))
}

/// The binary form of a sub-board.
pub open spec fn encode_sub_board(sub_board: SubBoard) -> Seq<u8> {
    match sub_board {
        SubBoard::Unfinished(cells) => seq![0u8] + encode_cells(cells),
        SubBoard::Cross => seq![1u8],
        SubBoard::Circle => seq![2u8],
        SubBoard::Draw => seq![3u8],
    }
}

/// The binary form of a sequence of sub-boards: one after the other.
pub open spec fn encode_sub_boards(boards: Seq<SubBoard>) -> Seq<u8>
    decreases boards.len(),
{
    if boards.len() == 0 {
        Seq::empty()
    } else {
        encode_sub_board(boards.first()) + encode_sub_boards(boards.drop_first())
    }
}

/// The binary form of the constraint on the next move.
pub open spec fn encode_next_move(next_move: NextMove) -> Seq<u8> {
    match next_move {
        NextMove::Everywhere => seq![0u8],
        NextMove::Field(index) => seq![1u8] + spec_u64_to_le_bytes(index as u64),
    }
}

/// The binary form of a board.
pub open spec fn encoding(board: Board) -> Seq<u8> {
    encode_sub_boards(board.boards) + encode_next_move(board.next_move) + seq![
        player_tag(board.next_player),
    ]
}

/// The nine cells written at `at`.
pub open spec fn decode_cells(bytes: Seq<u8>, at: int) -> Result<Seq<Field>, DecodeError> {
    if at + 9 > bytes.len() {
        Err(DecodeError::UnexpectedEnd)
    } else if forall|j: int| 0 <= j < 9 ==> field_of_tag(#[trigger] bytes[at + j]) is Some {
        Ok(Seq::new(9, |j: int| field_of_tag(bytes[at + j])->Some_0))
    } else {
        Err(DecodeError::InvalidTag)
    }
}

/// The sub-board written at `at`, with the position behind it.
pub open spec fn decode_sub_board(bytes: Seq<u8>, at: int) -> Result<(SubBoard, int), DecodeError> {
    if at >= bytes.len() {
        Err(DecodeError::UnexpectedEnd)
    } else if bytes[at] == 0 {
        match decode_cells(bytes, at + 1) {
            Ok(cells) => Ok((SubBoard::Unfinished(cells), at + 10)),
            Err(error) => Err(error),
        }
    } else if bytes[at] == 1 {
        Ok((SubBoard::Cross, at + 1))
    } else if bytes[at] == 2 {
        Ok((SubBoard::Circle, at + 1))
    } else if bytes[at] == 3 {
        Ok((SubBoard::Draw, at + 1))
    } else {
        Err(DecodeError::InvalidTag)
    }
}

/// The `count` sub-boards written one after the other from `at`, with the
/// position behind the last.
pub open spec fn decode_sub_boards(bytes: Seq<u8>, at: int, count: nat) -> Result<
    (Seq<SubBoard>, int),
    DecodeError,
>
    decreases count,
{
    if count == 0 {
        Ok((Seq::empty(), at))
    } else {
        match decode_sub_board(bytes, at) {
            Ok((first, next)) => match decode_sub_boards(bytes, next, (count - 1) as nat) {
                Ok((rest, end)) => Ok((seq![first] + rest, end)),
                Err(error) => Err(error),
            },
            Err(error) => Err(error),
        }
    }
}

/// The constraint on the next move written at `at`, with the position behind
/// it. A forced sub-board must be one of the nine.
pub open spec fn decode_next_move(bytes: Seq<u8>, at: int) -> Result<(NextMove, int), DecodeError> {
    if at >= bytes.len() {
        Err(DecodeError::UnexpectedEnd)
    } else if bytes[at] == 0 {
        Ok((NextMove::Everywhere, at + 1))
    } else if bytes[at] == 1 {
        if at + 9 > bytes.len() {
            Err(DecodeError::UnexpectedEnd)
        } else {
            let index = spec_u64_from_le_bytes(bytes.subrange(at + 1, at + 9));
            if index < 9 {
                Ok((NextMove::Field(index as usize), at + 9))
            } else {
                Err(DecodeError::Inconsistent)
            }
        }
    } else {
        Err(DecodeError::InvalidTag)
    }
}

/// The player written at `at`.
pub open spec fn decode_player(bytes: Seq<u8>, at: int) -> Result<Player, DecodeError> {
    if at >= bytes.len() {
        Err(DecodeError::UnexpectedEnd)
    } else if bytes[at] == 0 {
        Ok(Player::Cross)
    } else if bytes[at] == 1 {
        Ok(Player::Circle)
    } else {
        Err(DecodeError::InvalidTag)
    }
}

/// The board that `bytes` is the binary form of, or the reason for which it
/// is none. The parts are read in order, and the first that fails gives the
/// error; bytes left over and a broken invariant are found last.
pub open spec fn decoding(bytes: Seq<u8>) -> Result<Board, DecodeError> {
    match decode_sub_boards(bytes, 0, 9) {
        Ok((boards, at_next_move)) => match decode_next_move(bytes, at_next_move) {
            Ok((next_move, at_player)) => match decode_player(bytes, at_player) {
                Ok(next_player) => {
                    let board = Board { boards, next_move, next_player };
                    if at_player + 1 < bytes.len() {
                        Err(DecodeError::TrailingBytes)
                    } else if !board.wf() {
                        Err(DecodeError::Inconsistent)
                    } else {
                        Ok(board)
                    }
                },
                Err(error) => Err(error),
            },
            Err(error) => Err(error),
        },
        Err(error) => Err(error),
    }
}

/// `piece` stands in `bytes` from the position `at` on.
pub open spec fn occurs_at(bytes: Seq<u8>, at: int, piece: Seq<u8>) -> bool {
    &&& 0 <= at
    &&& at + piece.len() <= bytes.len()
    &&& bytes.subrange(at, at + piece.len()) == piece
}

proof fn lemma_occurs_at_index(bytes: Seq<u8>, at: int, piece: Seq<u8>, i: int)
    requires
        occurs_at(bytes, at, piece),
        0 <= i < piece.len(),
    ensures
        bytes[at + i] == piece[i],
{
    assert(bytes.subrange(at, at + piece.len())[i] == bytes[at + i]);
}

proof fn lemma_occurs_at_concat(bytes: Seq<u8>, at: int, front: Seq<u8>, back: Seq<u8>)
    requires
        0 <= at,
    ensures
        occurs_at(bytes, at, front + back) <==> occurs_at(bytes, at, front) && occurs_at(
            bytes,
            at + front.len(),
            back,
        ),
{
    let whole = front + back;
    if occurs_at(bytes, at, whole) {
        assert forall|i: int| 0 <= i < front.len() implies bytes.subrange(
            at,
            at + front.len(),
        )[i] == front[i] by {
            lemma_occurs_at_index(bytes, at, whole, i);
        }
        assert(bytes.subrange(at, at + front.len()) =~= front);
        assert forall|i: int| 0 <= i < back.len() implies bytes.subrange(
            at + front.len(),
            at + front.len() + back.len(),
        )[i] == back[i] by {
            lemma_occurs_at_index(bytes, at, whole, front.len() + i);
        }
        assert(bytes.subrange(at + front.len(), at + front.len() + back.len()) =~= back);
    }
    if occurs_at(bytes, at, front) && occurs_at(bytes, at + front.len(), back) {
        assert forall|i: int| 0 <= i < whole.len() implies bytes.subrange(
            at,
            at + whole.len(),
        )[i] == whole[i] by {
            if i < front.len() {
                lemma_occurs_at_index(bytes, at, front, i);
            } else {
                lemma_occurs_at_index(bytes, at + front.len(), back, i - front.len());
            }
        }
        assert(bytes.subrange(at, at + whole.len()) =~= whole);
    }
}

proof fn lemma_field_tags(field: Field, tag: u8)
    ensures
        field_of_tag(field_tag(field)) == Some(field),
        field_of_tag(tag) matches Some(f) ==> field_tag(f) == tag,
{
}

proof fn lemma_sub_board_read_back(bytes: Seq<u8>, at: int, sub_board: SubBoard)
    requires
        sub_board.wf(),
        occurs_at(bytes, at, encode_sub_board(sub_board)),
    ensures
        decode_sub_board(bytes, at) == Ok::<(SubBoard, int), DecodeError>(
            (sub_board, at + encode_sub_board(sub_board).len()),
        ),
{
    let piece = encode_sub_board(sub_board);
    lemma_occurs_at_index(bytes, at, piece, 0);
    match sub_board {
        SubBoard::Unfinished(cells) => {
            assert forall|j: int| 0 <= j < 9 implies field_of_tag(#[trigger] bytes[at + 1 + j])
                == Some(cells[j]) by {
                lemma_occurs_at_index(bytes, at, piece, 1 + j);
                lemma_field_tags(cells[j], 0);
            }
            assert(Seq::new(9, |j: int| field_of_tag(bytes[at + 1 + j])->Some_0) =~= cells);
        },
        _ => {},
    }
}

proof fn lemma_sub_board_written(bytes: Seq<u8>, at: int)
    requires
        0 <= at,
        decode_sub_board(bytes, at) is Ok,
    ensures
        ({
            let (sub_board, next) = decode_sub_board(bytes, at)->Ok_0;
            &&& sub_board.wf()
            &&& next == at + encode_sub_board(sub_board).len()
            &&& occurs_at(bytes, at, encode_sub_board(sub_board))
        }),
{
    let (sub_board, next) = decode_sub_board(bytes, at)->Ok_0;
    let piece = encode_sub_board(sub_board);
    match sub_board {
        SubBoard::Unfinished(cells) => {
            assert forall|i: int| 0 <= i < 10 implies bytes.subrange(at, at + 10)[i]
                == piece[i] by {
                if i > 0 {
                    let j = i - 1;
                    assert(field_of_tag(bytes[at + 1 + j]) is Some);
                    lemma_field_tags(Field::Empty, bytes[at + 1 + j]);
                }
            }
            assert(bytes.subrange(at, at + 10) =~= piece);
        },
        _ => {
            assert(bytes.subrange(at, at + 1) =~= piece);
        },
    }
}

proof fn lemma_sub_boards_read_back(bytes: Seq<u8>, at: int, boards: Seq<SubBoard>)
    requires
        forall|i: int| 0 <= i < boards.len() ==> (#[trigger] boards[i]).wf(),
        occurs_at(bytes, at, encode_sub_boards(boards)),
    ensures
        decode_sub_boards(bytes, at, boards.len()) == Ok::<(Seq<SubBoard>, int), DecodeError>(
            (boards, at + encode_sub_boards(boards).len()),
        ),
    decreases boards.len(),
{
    if boards.len() == 0 {
        assert(boards =~= Seq::empty());
    } else {
        let first = boards.first();
        let rest = boards.drop_first();
        lemma_occurs_at_concat(bytes, at, encode_sub_board(first), encode_sub_boards(rest));
        lemma_sub_board_read_back(bytes, at, first);
        assert forall|i: int| 0 <= i < rest.len() implies (#[trigger] rest[i]).wf() by {
            assert(rest[i] == boards[i + 1]);
        }
        lemma_sub_boards_read_back(bytes, at + encode_sub_board(first).len(), rest);
        assert(seq![first] + rest =~= boards);
    }
}

proof fn lemma_sub_boards_written(bytes: Seq<u8>, at: int, count: nat)
    requires
        0 <= at <= bytes.len(),
        decode_sub_boards(bytes, at, count) is Ok,
    ensures
        ({
            let (boards, end) = decode_sub_boards(bytes, at, count)->Ok_0;
            &&& boards.len() == count
            &&& forall|i: int| 0 <= i < boards.len() ==> (#[trigger] boards[i]).wf()
            &&& end == at + encode_sub_boards(boards).len()
            &&& occurs_at(bytes, at, encode_sub_boards(boards))
        }),
    decreases count,
{
    let (boards, end) = decode_sub_boards(bytes, at, count)->Ok_0;
    if count == 0 {
        assert(bytes.subrange(at, at) =~= Seq::<u8>::empty());
    } else {
        let (first, next) = decode_sub_board(bytes, at)->Ok_0;
        let (rest, _) = decode_sub_boards(bytes, next, (count - 1) as nat)->Ok_0;
        lemma_sub_board_written(bytes, at);
        lemma_sub_boards_written(bytes, next, (count - 1) as nat);
        assert(boards == seq![first] + rest);
        assert(boards.first() == first);
        assert(boards.drop_first() =~= rest);
        lemma_occurs_at_concat(bytes, at, encode_sub_board(first), encode_sub_boards(rest));
        assert forall|i: int| 0 <= i < boards.len() implies (#[trigger] boards[i]).wf() by {
            if i > 0 {
                assert(boards[i] == rest[i - 1]);
            }
        }
    }
}

proof fn lemma_next_move_read_back(bytes: Seq<u8>, at: int, next_move: NextMove)
    requires
        next_move matches NextMove::Field(index) ==> index < 9,
        occurs_at(bytes, at, encode_next_move(next_move)),
    ensures
        decode_next_move(bytes, at) == Ok::<(NextMove, int), DecodeError>(
            (next_move, at + encode_next_move(next_move).len()),
        ),
{
    let piece = encode_next_move(next_move);
    lemma_auto_spec_u64_to_from_le_bytes();
    match next_move {
        NextMove::Everywhere => {
            lemma_occurs_at_index(bytes, at, piece, 0);
        },
        NextMove::Field(index) => {
            let digits = spec_u64_to_le_bytes(index as u64);
            assert(digits.len() == 8);
            lemma_occurs_at_index(bytes, at, piece, 0);
            lemma_occurs_at_concat(bytes, at, seq![1u8], digits);
            assert(bytes.subrange(at + 1, at + 9) == digits);
        },
    }
}

proof fn lemma_next_move_written(bytes: Seq<u8>, at: int)
    requires
        0 <= at,
        decode_next_move(bytes, at) is Ok,
    ensures
        ({
            let (next_move, next) = decode_next_move(bytes, at)->Ok_0;
            &&& next == at + encode_next_move(next_move).len()
            &&& occurs_at(bytes, at, encode_next_move(next_move))
        }),
{
    let (next_move, next) = decode_next_move(bytes, at)->Ok_0;
    lemma_auto_spec_u64_to_from_le_bytes();
    match next_move {
        NextMove::Everywhere => {
            assert(bytes.subrange(at, at + 1) =~= seq![0u8]);
        },
        NextMove::Field(index) => {
            let digits = bytes.subrange(at + 1, at + 9);
            assert(digits.len() == 8);
            assert(spec_u64_to_le_bytes(spec_u64_from_le_bytes(digits)) == digits);
            assert(index as u64 == spec_u64_from_le_bytes(digits));
            assert(bytes.subrange(at, at + 1) =~= seq![1u8]);
            lemma_occurs_at_concat(bytes, at, seq![1u8], digits);
        },
    }
}

/// Round trip: the binary form of a board that satisfies the invariant is
/// read back as that board.
pub proof fn lemma_round_trip(board: Board)
    requires
        board.wf(),
    ensures
        decoding(encoding(board)) == Ok::<Board, DecodeError>(board),
{
    let boards = encode_sub_boards(board.boards);
    let next_move = encode_next_move(board.next_move);
    let player = seq![player_tag(board.next_player)];
    let bytes = encoding(board);
    assert(bytes.subrange(0, bytes.len() as int) =~= bytes);
    lemma_occurs_at_concat(bytes, 0, boards + next_move, player);
    lemma_occurs_at_concat(bytes, 0, boards, next_move);
    lemma_sub_boards_read_back(bytes, 0, board.boards);
    lemma_next_move_read_back(bytes, boards.len() as int, board.next_move);
    lemma_occurs_at_index(bytes, (boards.len() + next_move.len()) as int, player, 0);
}

/// A board that is read from a sequence of bytes satisfies the invariant,
/// and its binary form is that sequence: no two sequences of bytes stand for
/// the same board.
pub proof fn lemma_decoding_is_canonical(bytes: Seq<u8>)
    requires
        decoding(bytes) is Ok,
    ensures
        decoding(bytes)->Ok_0.wf(),
        encoding(decoding(bytes)->Ok_0) == bytes,
{
    let board = decoding(bytes)->Ok_0;
    let (boards, at_next_move) = decode_sub_boards(bytes, 0, 9)->Ok_0;
    let (next_move, at_player) = decode_next_move(bytes, at_next_move)->Ok_0;
    lemma_sub_boards_written(bytes, 0, 9);
    lemma_next_move_written(bytes, at_next_move);
    let player = seq![player_tag(board.next_player)];
    assert(bytes.subrange(at_player, at_player + 1) =~= player);
    let front = encode_sub_boards(boards);
    let middle = encode_next_move(next_move);
    lemma_occurs_at_concat(bytes, 0, front, middle);
    lemma_occurs_at_concat(bytes, 0, front + middle, player);
    assert(bytes.subrange(0, bytes.len() as int) =~= bytes);
}

/// A sequence of bytes is read as a board exactly when it is the binary form
/// of a board that satisfies the invariant.
pub proof fn lemma_decoding_succeeds_iff(bytes: Seq<u8>)
    ensures
        decoding(bytes) is Ok <==> exists|board: Board|
            board.wf() && #[trigger] encoding(board) == bytes,
{
    if decoding(bytes) is Ok {
        lemma_decoding_is_canonical(bytes);
        let board = decoding(bytes)->Ok_0;
        assert(board.wf() && encoding(board) == bytes);
    }
    if exists|board: Board| board.wf() && #[trigger] encoding(board) == bytes {
        let board = choose|board: Board| board.wf() && #[trigger] encoding(board) == bytes;
        lemma_round_trip(board);
    }
}

/// Two boards with the same binary form are the same board, if both satisfy
/// the invariant.
pub proof fn lemma_encoding_injective(a: Board, b: Board)
    requires
        a.wf(),
        b.wf(),
        encoding(a) == encoding(b),
    ensures
        a == b,
{
    lemma_round_trip(a);
    lemma_round_trip(b);
}

/// Prefixing the sub-boards of a partial result with those read before it.
spec fn prepend(front: Seq<SubBoard>, rest: Result<(Seq<SubBoard>, int), DecodeError>) -> Result<
    (Seq<SubBoard>, int),
    DecodeError,
> {
    match rest {
        Ok((boards, end)) => Ok((front + boards, end)),
        Err(error) => Err(error),
    }
}

proof fn lemma_encode_sub_boards_push(boards: Seq<SubBoard>, last: SubBoard)
    ensures
        encode_sub_boards(boards.push(last)) == encode_sub_boards(boards) + encode_sub_board(last),
    decreases boards.len(),
{
    let whole = boards.push(last);
    if boards.len() == 0 {
        assert(whole.drop_first() =~= Seq::<SubBoard>::empty());
        assert(encode_sub_boards(whole.drop_first()) =~= Seq::<u8>::empty());
        assert(encode_sub_boards(whole) =~= encode_sub_board(last));
        assert(encode_sub_boards(boards) + encode_sub_board(last) =~= encode_sub_board(last));
    } else {
        assert(whole.first() == boards.first());
        assert(whole.drop_first() =~= boards.drop_first().push(last));
        lemma_encode_sub_boards_push(boards.drop_first(), last);
        assert(encode_sub_boards(whole) =~= encode_sub_boards(boards) + encode_sub_board(last));
    }
}

fn field_to_tag(field: Field) -> (tag: u8)
    ensures
        tag == field_tag(field),
{
    match field {
        Field::Cross => 0,
        Field::Circle => 1,
        Field::Empty => 2,
    }
}

fn tag_to_field(tag: u8) -> (field: Option<Field>)
    ensures
        field == field_of_tag(tag),
{
    if tag == 0 {
        Some(Field::Cross)
    } else if tag == 1 {
        Some(Field::Circle)
    } else if tag == 2 {
        Some(Field::Empty)
    } else {
        None
    }
}

/// Appends the binary form of `small` to `out`.
fn write_sub_board(out: &mut Vec<u8>, small: &SmallGame)
    ensures
        final(out)@ == old(out)@ + encode_sub_board(small@),
{
    match small {
        SmallGame::Unfinished(cells) => {
            out.push(0);
            let mut i: usize = 0;
            while i < 9
                invariant
                    i <= 9,
                    out@ == old(out)@ + seq![0u8] + encode_cells(cells@).take(i as int),
                decreases 9 - i,
            {
                out.push(field_to_tag(cells[i]));
                assert(encode_cells(cells@).take(i + 1) =~= encode_cells(cells@).take(
                    i as int,
                ).push(field_tag(cells@[i as int])));
                i += 1;
            }
            assert(encode_cells(cells@).take(9) =~= encode_cells(cells@));
            assert(out@ =~= old(out)@ + encode_sub_board(small@));
        },
        SmallGame::Cross => {
            out.push(1);
            assert(out@ =~= old(out)@ + encode_sub_board(small@));
        },
        SmallGame::Circle => {
            out.push(2);
            assert(out@ =~= old(out)@ + encode_sub_board(small@));
        },
        SmallGame::Draw => {
            out.push(3);
            assert(out@ =~= old(out)@ + encode_sub_board(small@));
        },
    }
}

/// Reads the sub-board written at `at`.
fn read_sub_board(bytes: &[u8], at: usize) -> (r: Result<(SmallGame, usize), DecodeError>)
    requires
        at <= bytes@.len(),
    ensures
        match r {
            Ok((small, next)) => decode_sub_board(bytes@, at as int) == Ok::<
                (SubBoard, int),
                DecodeError,
            >((small@, next as int)) && next <= bytes@.len(),
            Err(error) => decode_sub_board(bytes@, at as int) == Err::<
                (SubBoard, int),
                DecodeError,
            >(error),
        },
{
    if at >= bytes.len() {
        return Err(DecodeError::UnexpectedEnd);
    }
    let tag = bytes[at];
    if tag == 0 {
        if bytes.len() - at < 10 {
            return Err(DecodeError::UnexpectedEnd);
        }
        let e = Field::Empty;
        let mut cells = [e, e, e, e, e, e, e, e, e];
        let mut j: usize = 0;
        while j < 9
            invariant
                j <= 9,
                at + 10 <= bytes@.len() <= usize::MAX,
                bytes@[at as int] == 0,
                forall|k: int|
                    0 <= k < j ==> field_of_tag(#[trigger] bytes@[at + 1 + k]) == Some(cells@[k]),
            decreases 9 - j,
        {
            match tag_to_field(bytes[at + 1 + j]) {
                Some(field) => {
                    cells[j] = field;
                },
                None => {
                    assert(field_of_tag(bytes@[at + 1 + j]) is None);
                    return Err(DecodeError::InvalidTag);
                },
            }
            j += 1;
        }
        assert(cells@ =~= Seq::new(9, |k: int| field_of_tag(bytes@[at + 1 + k])->Some_0));
        Ok((SmallGame::Unfinished(cells), at + 10))
    } else if tag == 1 {
        Ok((SmallGame::Cross, at + 1))
    } else if tag == 2 {
        Ok((SmallGame::Circle, at + 1))
    } else if tag == 3 {
        Ok((SmallGame::Draw, at + 1))
    } else {
        Err(DecodeError::InvalidTag)
    }
}

/// Reads the constraint on the next move written at `at`.
fn read_next_move(bytes: &[u8], at: usize) -> (r: Result<(NextMove, usize), DecodeError>)
    requires
        at <= bytes@.len(),
    ensures
        match r {
            Ok((next_move, next)) => decode_next_move(bytes@, at as int) == Ok::<
                (NextMove, int),
                DecodeError,
            >((next_move, next as int)) && next <= bytes@.len(),
            Err(error) => decode_next_move(bytes@, at as int) == Err::<
                (NextMove, int),
                DecodeError,
            >(error),
        },
{
    if at >= bytes.len() {
        return Err(DecodeError::UnexpectedEnd);
    }
    let tag = bytes[at];
    if tag == 0 {
        Ok((NextMove::Everywhere, at + 1))
    } else if tag == 1 {
        if bytes.len() - at < 9 {
            return Err(DecodeError::UnexpectedEnd);
        }
        let index = u64_from_le_bytes(slice_subrange(bytes, at + 1, at + 9));
        if index < 9 {
            Ok((NextMove::Field(index as usize), at + 9))
        } else {
            Err(DecodeError::Inconsistent)
        }
    } else {
        Err(DecodeError::InvalidTag)
    }
}

impl Game {
    /// The binary form of this game.
    pub fn encode(&self) -> (bytes: Vec<u8>)
        ensures
            bytes@ == encoding(self@),
            decoding(bytes@) == Ok::<Board, DecodeError>(self@),
    {
        let mut out: Vec<u8> = Vec::new();
        let field = self.get_field();
        let mut i: usize = 0;
        while i < 9
            invariant
                i <= 9,
                self@.boards.len() == 9,
                forall|k: int| 0 <= k < 9 ==> (#[trigger] field[k])@ == self@.boards[k],
                out@ == encode_sub_boards(self@.boards.take(i as int)),
            decreases 9 - i,
        {
            write_sub_board(&mut out, &field[i]);
            proof {
                lemma_encode_sub_boards_push(self@.boards.take(i as int), self@.boards[i as int]);
                assert(self@.boards.take(i + 1) =~= self@.boards.take(i as int).push(
                    self@.boards[i as int],
                ));
            }
            i += 1;
        }
        assert(self@.boards.take(9) =~= self@.boards);
        match self.get_next_move() {
            NextMove::Everywhere => {
                out.push(0);
            },
            NextMove::Field(index) => {
                out.push(1);
                let mut digits = u64_to_le_bytes(index as u64);
                out.append(&mut digits);
            },
        }
        assert(out@ =~= encode_sub_boards(self@.boards) + encode_next_move(self@.next_move));
        let tag: u8 = match self.get_next_player() {
            Player::Cross => 0,
            Player::Circle => 1,
        };
        out.push(tag);
        proof {
            assert(out@ =~= encoding(self@));
            lemma_round_trip(self@);
        }
        out
    }

    /// The game that `bytes` is the binary form of, or the reason for which
    /// there is none.
    pub fn decode(bytes: &[u8]) -> (r: Result<Game, DecodeError>)
        ensures
            match r {
                Ok(game) => decoding(bytes@) == Ok::<Board, DecodeError>(game@),
                Err(error) => decoding(bytes@) == Err::<Board, DecodeError>(error),
            },
            r matches Ok(game) ==> encoding(game@) == bytes@,
    {
        let d = SmallGame::Draw;
        let mut field = [d, d, d, d, d, d, d, d, d];
        let mut at: usize = 0;
        let mut i: usize = 0;
        let ghost mut boards: Seq<SubBoard> = Seq::empty();
        while i < 9
            invariant
                i <= 9,
                at <= bytes@.len(),
                boards.len() == i,
                forall|k: int| 0 <= k < i ==> (#[trigger] field[k])@ == boards[k],
                decode_sub_boards(bytes@, 0, 9) == prepend(
                    boards,
                    decode_sub_boards(bytes@, at as int, (9 - i) as nat),
                ),
            decreases 9 - i,
        {
            match read_sub_board(bytes, at) {
                Ok((small, next)) => {
                    proof {
                        let rest = decode_sub_boards(bytes@, next as int, (9 - i - 1) as nat);
                        if rest is Ok {
                            assert(boards + (seq![small@] + rest->Ok_0.0) =~= boards.push(small@)
                                + rest->Ok_0.0);
                        }
                        boards = boards.push(small@);
                    }
                    field[i] = small;
                    at = next;
                },
                Err(error) => {
                    return Err(error);
                },
            }
            i += 1;
        }
        assert(boards + Seq::<SubBoard>::empty() =~= boards);
        let (next_move, at_player) = match read_next_move(bytes, at) {
            Ok(found) => found,
            Err(error) => {
                return Err(error);
            },
        };
        if at_player >= bytes.len() {
            return Err(DecodeError::UnexpectedEnd);
        }
        let next_player = if bytes[at_player] == 0 {
            Player::Cross
        } else if bytes[at_player] == 1 {
            Player::Circle
        } else {
            return Err(DecodeError::InvalidTag);
        };
        if bytes.len() - at_player > 1 {
            return Err(DecodeError::TrailingBytes);
        }
        assert(board_of(field, next_move, next_player).boards =~= boards);
        match Game::from_parts(field, next_move, next_player) {
            Some(game) => {
                proof {
                    lemma_decoding_is_canonical(bytes@);
                }
                Ok(game)
            },
            None => Err(DecodeError::Inconsistent),
        }
    }
}

} // verus!
