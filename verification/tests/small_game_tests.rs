use super_tictactoe::line::winner;
use super_tictactoe::{Field, Mark, Player, SmallGame, WIN_CONDITIONS};

const X: Field = Field::Cross;
const O: Field = Field::Circle;
const E: Field = Field::Empty;

#[test]
fn win_conditions_are_rows_columns_diagonals() {
    assert_eq!(
        WIN_CONDITIONS,
        [[0, 1, 2], [3, 4, 5], [6, 7, 8], [0, 3, 6], [1, 4, 7], [2, 5, 8], [0, 4, 8], [2, 4, 6]]
    );
}

#[test]
fn owners_of_cells_and_sub_boards() {
    assert_eq!(X.owner(), Some(Player::Cross));
    assert_eq!(O.owner(), Some(Player::Circle));
    assert_eq!(E.owner(), None);
    assert_eq!(SmallGame::Cross.owner(), Some(Player::Cross));
    assert_eq!(SmallGame::Circle.owner(), Some(Player::Circle));
    assert_eq!(SmallGame::Draw.owner(), None);
    assert_eq!(SmallGame::Unfinished([X; 9]).owner(), None);
    assert_eq!(Field::of(Player::Cross), X);
    assert_eq!(Field::of(Player::Circle), O);
    assert_eq!(Player::Cross.other(), Player::Circle);
    assert_eq!(Player::Circle.other(), Player::Cross);
    assert_eq!(SmallGame::won_by(Player::Cross), SmallGame::Cross);
    assert_eq!(SmallGame::won_by(Player::Circle), SmallGame::Circle);
}

#[test]
fn every_line_wins_a_sub_board() {
    for line in WIN_CONDITIONS {
        for (mark, other, won, player) in [
            (X, O, SmallGame::Cross, Player::Cross),
            (O, X, SmallGame::Circle, Player::Circle),
        ] {
            let mut cells = [E; 9];
            for i in line {
                cells[i] = mark;
            }
            assert_eq!(winner(&cells), Some(player));
            assert_eq!(SmallGame::Unfinished(cells).update(), won);
            // Two marks of a line and one of the opponent win nothing.
            cells[line[2]] = other;
            assert_eq!(winner(&cells), None);
            assert_eq!(SmallGame::Unfinished(cells).update(), SmallGame::Unfinished(cells));
            cells[line[2]] = E;
            assert_eq!(SmallGame::Unfinished(cells).update(), SmallGame::Unfinished(cells));
        }
    }
}

#[test]
fn empty_cells_complete_no_line() {
    assert_eq!(winner(&[E; 9]), None);
    assert_eq!(SmallGame::Unfinished([E; 9]).update(), SmallGame::Unfinished([E; 9]));
}

#[test]
fn full_sub_board_without_a_line_is_drawn() {
    let cells = [X, O, X, X, O, O, O, X, X];
    assert_eq!(winner(&cells), None);
    assert_eq!(SmallGame::Unfinished(cells).update(), SmallGame::Draw);
    let cells = [O, X, O, O, X, X, X, O, O];
    assert_eq!(SmallGame::Unfinished(cells).update(), SmallGame::Draw);
}

#[test]
fn full_sub_board_with_a_line_is_won() {
    let cells = [X, O, X, O, X, O, X, X, O];
    assert_eq!(SmallGame::Unfinished(cells).update(), SmallGame::Cross);
    let cells = [X, X, O, X, O, X, O, O, X];
    assert_eq!(SmallGame::Unfinished(cells).update(), SmallGame::Circle);
}

#[test]
fn sub_board_with_one_empty_cell_stays_in_play() {
    let cells = [X, O, X, X, O, O, O, X, E];
    assert_eq!(SmallGame::Unfinished(cells).update(), SmallGame::Unfinished(cells));
}

#[test]
fn first_complete_line_decides_a_sub_board() {
    // Rows come before columns and diagonals, upper rows before lower ones.
    assert_eq!(SmallGame::Unfinished([O, O, O, X, X, X, E, E, E]).update(), SmallGame::Circle);
    assert_eq!(SmallGame::Unfinished([X, X, X, O, O, O, E, E, E]).update(), SmallGame::Cross);
    assert_eq!(SmallGame::Unfinished([E, E, E, X, X, X, O, O, O]).update(), SmallGame::Cross);
    assert_eq!(SmallGame::Unfinished([O, X, E, O, X, E, O, X, E]).update(), SmallGame::Circle);
    assert_eq!(winner(&[O, X, E, O, X, E, O, X, E]), Some(Player::Circle));
}

#[test]
fn finished_sub_board_is_a_fixed_point() {
    for small in [SmallGame::Cross, SmallGame::Circle, SmallGame::Draw] {
        assert_eq!(small.update(), small);
        assert_eq!(small.update().update(), small);
        assert!(small.is_finished());
    }
}

#[test]
fn update_is_idempotent() {
    for cells in [
        [E; 9],
        [X, X, X, E, E, E, E, E, E],
        [X, O, X, X, O, O, O, X, X],
        [X, O, X, X, O, O, O, X, E],
        [O, E, E, E, O, E, E, E, O],
    ] {
        let once = SmallGame::Unfinished(cells).update();
        assert_eq!(once.update(), once);
    }
}

#[test]
fn sub_board_in_play_is_not_finished() {
    assert!(!SmallGame::Unfinished([E; 9]).is_finished());
    assert!(!SmallGame::Unfinished([X; 9]).is_finished());
    assert!(!SmallGame::default().is_finished());
}
