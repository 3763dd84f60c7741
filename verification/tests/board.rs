use gomoku_rm::board::{Board, Color, Pos, BOARD_SIZE};

#[test]
fn place_and_undo() {
    let mut b = Board::new();
    let p = Pos::new(9, 9);
    assert!(b.is_empty(p));
    assert!(b.place(p, Color::Black));
    assert_eq!(b.get(p), Some(Color::Black));
    assert_eq!(b.current_side(), Color::White);
    assert_eq!(b.unplace_last(), Some((p, Color::Black)));
    assert!(b.is_empty(p));
    assert_eq!(b.current_side(), Color::Black);
}

#[test]
fn cannot_place_on_occupied() {
    let mut b = Board::new();
    let p = Pos::new(0, 0);
    assert!(b.place(p, Color::Black));
    assert!(!b.place(p, Color::White));
}

#[test]
fn failed_place_leaves_board_unchanged() {
    let mut b = Board::new();
    let p = Pos::new(3, 4);
    assert!(b.place(p, Color::Black));
    assert!(!b.place(p, Color::White));
    assert_eq!(b.get(p), Some(Color::Black));
    assert_eq!(b.history.len(), 1);
    assert_eq!(b.current_side(), Color::White);
}

#[test]
fn undo_on_empty_board_is_none() {
    let mut b = Board::new();
    assert_eq!(b.unplace_last(), None);
    assert_eq!(b.history.len(), 0);
}

#[test]
fn undo_restores_earlier_position() {
    let mut b = Board::new();
    b.place(Pos::new(1, 1), Color::Black);
    b.place(Pos::new(2, 2), Color::White);
    let before = b.stones();
    assert!(b.place(Pos::new(18, 18), Color::Black));
    b.unplace_last();
    assert_eq!(b.stones(), before);
    assert!(b.is_empty(Pos::new(18, 18)));
    assert_eq!(b.get(Pos::new(2, 2)), Some(Color::White));
}

#[test]
fn opposite_colors() {
    assert_eq!(Color::Black.opp(), Color::White);
    assert_eq!(Color::White.opp(), Color::Black);
}

#[test]
fn pos_coordinates() {
    let p = Pos::new(18, 0);
    assert_eq!(p.col(), 18);
    assert_eq!(p.row(), 0);
    assert_eq!(BOARD_SIZE, 19);
}

#[test]
fn five_in_a_row_wins() {
    let mut b = Board::new();
    for c in 4..=8 {
        b.place(Pos::new(c, 9), Color::Black);
        if c < 8 {
            assert_eq!(b.winner(), None);
        }
    }
    assert_eq!(b.winner(), Some(Color::Black));
    assert!(b.check_five_at(Pos::new(6, 9), Color::Black));
    assert!(!b.check_five_at(Pos::new(6, 9), Color::White));
    assert!(!b.check_five_at(Pos::new(6, 10), Color::Black));
}

#[test]
fn diagonal_fives_win() {
    let mut b = Board::new();
    for i in 0..5 {
        b.place(Pos::new(10 + i, 2 + i), Color::White);
    }
    assert!(b.check_five_at(Pos::new(12, 4), Color::White));
    assert_eq!(b.winner(), Some(Color::White));
    let mut a = Board::new();
    for i in 0..5 {
        a.place(Pos::new(4 + i, 14 - i), Color::Black);
    }
    assert_eq!(a.winner(), Some(Color::Black));
}

#[test]
fn four_is_not_five() {
    let mut b = Board::new();
    for r in 0..4 {
        b.place(Pos::new(0, r), Color::Black);
    }
    assert_eq!(b.winner(), None);
    assert!(!b.check_five_at(Pos::new(0, 0), Color::Black));
}

#[test]
fn reset_clears_board() {
    let mut b = Board::new();
    b.place(Pos::new(5, 5), Color::Black);
    b.reset();
    assert!(b.is_empty(Pos::new(5, 5)));
    assert_eq!(b.history.len(), 0);
    assert_eq!(b.current_side(), Color::Black);
}

#[test]
fn clone_keeps_stones() {
    let mut b = Board::new();
    b.place(Pos::new(5, 6), Color::Black);
    let c = b.clone();
    assert_eq!(c.get(Pos::new(5, 6)), Some(Color::Black));
    assert_eq!(c.stones(), b.stones());
    assert_eq!(b.move_count(), 1);
    assert_eq!(b.last_move(), Some((Pos::new(5, 6), Color::Black)));
}
