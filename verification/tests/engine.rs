use gomoku_rm::board::{Board, Color, Pos, BOARD_SIZE};
use gomoku_rm::engine::alphabeta::{candidates, deepening_step, search_budget, AlphaBetaEngine, WIN_SCORE};
use gomoku_rm::engine::Engine;

#[test]
fn empty_board_picks_center() {
    let mut e = AlphaBetaEngine::new(2);
    let b = Board::new();
    let m = e.best_move(&b, Color::Black, 1000);
    assert_eq!(m, Pos::new(BOARD_SIZE / 2, BOARD_SIZE / 2));
}

#[test]
fn ai_completes_five_when_possible() {
    // Black has 4 in a row; AI as Black should complete to 5.
    let mut b = Board::new();
    for c in 4..=7 {
        b.place(Pos::new(c, 9), Color::Black);
    }
    // Now opponent placed a blocker somewhere irrelevant
    b.place(Pos::new(0, 0), Color::White);
    let mut e = AlphaBetaEngine::new(2);
    let m = e.best_move(&b, Color::Black, 1000);
    // Either col=3 or col=8 (the two extension points to make 5)
    assert!(
        (m == Pos::new(3, 9)) || (m == Pos::new(8, 9)),
        "AI should complete the 5; got ({}, {})",
        m.col(),
        m.row()
    );
}

#[test]
fn ai_blocks_opponent_five() {
    // White has 4 in a row; AI as Black must block.
    let mut b = Board::new();
    b.place(Pos::new(9, 9), Color::Black);
    for c in 4..=7 {
        b.place(Pos::new(c, 5), Color::White);
    }
    // history.len()=5 (1 black + 4 white) → next is Black's turn.
    let mut e = AlphaBetaEngine::new(3);
    let m = e.best_move(&b, Color::Black, 2000);
    assert!(
        (m == Pos::new(3, 5)) || (m == Pos::new(8, 5)),
        "AI should block white's 4; got ({}, {})",
        m.col(),
        m.row()
    );
}

#[test]
fn candidates_on_empty_board_is_center() {
    let b = Board::new();
    assert_eq!(candidates(&b), vec![Pos::new(9, 9)]);
}

#[test]
fn candidates_around_a_corner_stone() {
    let mut b = Board::new();
    b.place(Pos::new(0, 0), Color::Black);
    let c = candidates(&b);
    // 3×3 block of cells within distance 2 in the corner, minus the stone itself.
    assert_eq!(c.len(), 8);
    assert!(!c.contains(&Pos::new(0, 0)));
    assert!(c.contains(&Pos::new(2, 2)));
    assert!(!c.contains(&Pos::new(3, 0)));
    // Column by column, row by row.
    assert_eq!(c[0], Pos::new(0, 1));
    assert_eq!(c[7], Pos::new(2, 2));
}

#[test]
fn candidates_around_a_center_stone() {
    let mut b = Board::new();
    b.place(Pos::new(9, 9), Color::Black);
    assert_eq!(candidates(&b).len(), 24);
}

#[test]
fn engine_move_is_empty_and_near_stones() {
    let mut b = Board::new();
    b.place(Pos::new(9, 9), Color::Black);
    b.place(Pos::new(10, 10), Color::White);
    let mut e = AlphaBetaEngine::with_budget(1, 500);
    let m = e.best_move(&b, Color::Black, 500);
    assert!(b.is_empty(m));
    assert!(candidates(&b).contains(&m));
    assert_eq!(e.max_depth, 1);
    assert_eq!(e.time_budget_ms, 500);
    assert_eq!(e.name(), "AlphaBeta");
}

#[test]
fn engine_defaults() {
    let e = AlphaBetaEngine::new(4);
    assert_eq!(e.max_depth, 4);
    assert_eq!(e.time_budget_ms, 3000);
    assert_eq!(WIN_SCORE, 100_000_000);
}

#[test]
fn one_ply_ordering_without_search() {
    // With no search depth the engine plays the best move by 1-ply evaluation:
    // completing the five.
    let mut b = Board::new();
    for c in 4..=7 {
        b.place(Pos::new(c, 9), Color::Black);
    }
    b.place(Pos::new(0, 0), Color::White);
    let mut e = AlphaBetaEngine::new(0);
    let m = e.best_move(&b, Color::Black, 1000);
    assert!(m == Pos::new(3, 9) || m == Pos::new(8, 9));
}

#[test]
fn deepening_keeps_completed_depths() {
    let kept = Pos::new(1, 1);
    let found = Pos::new(2, 2);
    // A completed depth replaces the move and, without a win, goes on.
    assert_eq!(deepening_step(kept, Some((found, 5))), (found, false));
    // A win stops the deepening.
    assert_eq!(deepening_step(kept, Some((found, WIN_SCORE))), (found, true));
    assert_eq!(deepening_step(kept, Some((found, WIN_SCORE / 2))), (found, true));
    assert_eq!(deepening_step(kept, Some((found, WIN_SCORE / 2 - 1))), (found, false));
    // A depth the clock stopped keeps the move and stops.
    assert_eq!(deepening_step(kept, None), (kept, true));
}

#[test]
fn search_budget_has_a_floor() {
    assert_eq!(search_budget(0), 50);
    assert_eq!(search_budget(50), 50);
    assert_eq!(search_budget(51), 51);
    assert_eq!(search_budget(3000), 3000);
}
