use super_tictactoe::{Game, History, Move, NextMove, Player, Rejected, Winner};

#[test]
fn new_history_holds_the_initial_game() {
    let history = History::new();
    assert_eq!(history.depth(), 0);
    assert_eq!(history.current(), Game::default());
    assert_eq!(History::default().current(), Game::default());
}

#[test]
fn undo_on_a_single_snapshot_changes_nothing() {
    let mut history = History::new();
    history.undo();
    assert_eq!(history.depth(), 0);
    assert_eq!(history.current(), Game::default());
    history.undo();
    assert_eq!(history.depth(), 0);
    assert_eq!(history.current(), Game::default());
}

#[test]
fn undo_returns_to_the_previous_snapshot() {
    let mut history = History::new();
    let mut snapshots = vec![history.current()];
    for field in [4, 36, 0, 1, 9, 2] {
        assert_eq!(history.play(None, field), Ok(()));
        snapshots.push(history.current());
    }
    for n in (1..snapshots.len()).rev() {
        assert_eq!(history.depth(), n);
        assert_eq!(history.current(), snapshots[n]);
        history.undo();
        assert_eq!(history.depth(), n - 1);
        assert_eq!(history.current(), snapshots[n - 1]);
    }
    history.undo();
    assert_eq!(history.depth(), 0);
    assert_eq!(history.current(), Game::default());
}

#[test]
fn append_adds_a_snapshot() {
    let mut history = History::new();
    let mut game = Game::default();
    assert_eq!(game.play(Move::new(Player::Cross, 40)), Ok(()));
    history.append(game);
    assert_eq!(history.depth(), 1);
    assert_eq!(history.current(), game);
    history.append(Game::default());
    assert_eq!(history.depth(), 2);
    assert_eq!(history.current(), Game::default());
    history.undo();
    assert_eq!(history.current(), game);
}

#[test]
fn accepted_move_is_recorded() {
    let mut history = History::new();
    assert_eq!(history.play(None, 4), Ok(()));
    assert_eq!(history.depth(), 1);
    assert_eq!(history.current().get_next_move(), NextMove::Field(4));
    assert_eq!(history.current().get_next_player(), Player::Circle);
    let mut expected = Game::default();
    assert_eq!(expected.play(Move::new(Player::Cross, 4)), Ok(()));
    assert_eq!(history.current(), expected);
    assert_eq!(history.play(Some(Player::Circle), 40), Ok(()));
    assert_eq!(history.depth(), 2);
    assert_eq!(history.current().get_winner(), Winner::InProgress);
}

#[test]
fn rejected_move_is_not_recorded() {
    let mut history = History::new();
    assert_eq!(history.play(None, 4), Ok(()));
    let before = history.current();
    assert_eq!(history.play(None, 9), Err(Rejected::WrongSubBoard));
    assert_eq!(history.play(None, 81), Err(Rejected::InvalidCell));
    assert_eq!(history.play(Some(Player::Cross), 36), Err(Rejected::WrongTurn));
    assert_eq!(history.play(None, 36), Ok(()));
    assert_eq!(history.play(None, 4), Err(Rejected::CellOccupied));
    assert_eq!(history.depth(), 2);
    history.undo();
    assert_eq!(history.current(), before);
}

#[test]
fn branch_after_undo_replaces_the_old_one() {
    let mut history = History::new();
    assert_eq!(history.play(None, 4), Ok(()));
    assert_eq!(history.play(None, 36), Ok(()));
    history.undo();
    assert_eq!(history.play(None, 40), Ok(()));
    assert_eq!(history.depth(), 2);
    assert_eq!(history.current().get_next_move(), NextMove::Field(4));
    history.undo();
    history.undo();
    history.undo();
    assert_eq!(history.current(), Game::default());
}
