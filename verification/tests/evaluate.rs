use gomoku_rm::board::{Board, Color, Pos};
use gomoku_rm::engine::evaluate::{collect_lines, evaluate};

#[test]
fn empty_board_zero() {
    let b = Board::new();
    assert_eq!(evaluate(&b, Color::Black), 0);
}

#[test]
fn black_five_wins_eval() {
    let mut b = Board::new();
    for c in 4..=8 {
        b.place(Pos::new(c, 9), Color::Black);
    }
    let v = evaluate(&b, Color::Black);
    assert!(v >= 1_000_000, "black-five eval should be huge, got {v}");
}

#[test]
fn white_five_loses_for_black() {
    let mut b = Board::new();
    for c in 4..=8 {
        b.place(Pos::new(c, 9), Color::White);
    }
    let v = evaluate(&b, Color::Black);
    assert!(v <= -1_000_000, "black sees white five as huge negative, got {v}");
}

#[test]
fn open_three_is_positive() {
    let mut b = Board::new();
    for c in 5..=7 {
        b.place(Pos::new(c, 9), Color::Black);
    }
    let v = evaluate(&b, Color::Black);
    assert!(v > 0, "black open three should be positive, got {v}");
}

#[test]
fn evaluation_is_zero_sum() {
    let mut b = Board::new();
    b.place(Pos::new(9, 9), Color::Black);
    b.place(Pos::new(9, 10), Color::White);
    b.place(Pos::new(10, 10), Color::Black);
    assert_eq!(evaluate(&b, Color::Black), -evaluate(&b, Color::White));
}

#[test]
fn lines_cover_rows_columns_and_diagonals() {
    let mut b = Board::new();
    b.place(Pos::new(0, 0), Color::Black);
    let lines = collect_lines(&b);
    assert_eq!(lines.len(), 96);
    // Row 0 and column 0 start with the stone; the shortest diagonals have five cells.
    assert_eq!(lines[0][0], Some(Color::Black));
    assert_eq!(lines[19][0], Some(Color::Black));
    assert_eq!(lines[0].len(), 19);
    assert_eq!(lines[38].len(), 5);
    assert_eq!(lines[52].len(), 19);
    assert_eq!(lines[52][0], Some(Color::Black));
    assert_eq!(lines[67].len(), 5);
    assert_eq!(lines[95].len(), 5);
}

#[test]
fn single_stone_scores_nothing() {
    // A lone stone forms no pattern; both sides score zero.
    let mut b = Board::new();
    b.place(Pos::new(9, 9), Color::Black);
    assert_eq!(evaluate(&b, Color::Black), 0);
}
