use gomoku_rm::engine::shape::{
    count_pattern, score_line, SCORE_FIVE, SCORE_FOUR, SCORE_OPEN_FOUR, SCORE_OPEN_THREE, SCORE_OPEN_TWO,
    SCORE_THREE, SCORE_TWO,
};

#[test]
fn count_overlapping() {
    assert_eq!(count_pattern("OOOOOO", "OOOOO"), 2);
    assert_eq!(count_pattern("OOOO", "OOOOO"), 0);
    assert_eq!(count_pattern("X_O_O_X", "_O_"), 2);
}

#[test]
fn count_empty_pattern_is_zero() {
    assert_eq!(count_pattern("OOO", ""), 0);
    assert_eq!(count_pattern("", "O"), 0);
    assert_eq!(count_pattern("OOO", "OOO"), 1);
}

#[test]
fn five_dominates() {
    let s = score_line("XX_OOOOO_XX");
    assert!(s >= SCORE_FIVE, "five-in-a-row should score >= {SCORE_FIVE}, got {s}");
}

#[test]
fn open_four_outscores_closed_four() {
    let open = score_line("X__OOOO__X");
    let closed = score_line("XOOOO_XX_X"); // four with one closed end
    assert!(open > closed, "open four ({open}) should outscore closed four ({closed})");
}

#[test]
fn open_three_present() {
    let s = score_line("XX_OOO_XX");
    assert!(s >= SCORE_OPEN_THREE, "open three should score, got {s}");
}

#[test]
fn empty_line_zero() {
    assert_eq!(score_line("X__________X"), 0);
}

#[test]
fn exact_line_scores() {
    // Five: one five; "X" + five O + "X" also matches no other pattern.
    assert_eq!(score_line("XOOOOOX"), SCORE_FIVE);
    // Open four: one open four, plus the fours "_OOOOX"? no: both ends empty.
    // "_OOOO_" matches open four once, "XOOOO_"/"_OOOOX" not at all.
    assert_eq!(score_line("X_OOOO_X"), SCORE_OPEN_FOUR);
    // Closed four: "XOOOO_" once.
    assert_eq!(score_line("XOOOO_X"), SCORE_FOUR);
    // Open two "_OO_" once, nothing else.
    assert_eq!(score_line("X_OO_X"), SCORE_OPEN_TWO);
    // Closed two "XOO__" once; "_OO_" does not occur.
    assert_eq!(score_line("XOO__X"), SCORE_TWO);
    // Closed three "XOOO__" once.
    assert_eq!(score_line("XOOO__X"), SCORE_THREE);
}

#[test]
fn no_friendly_stone_scores_nothing() {
    assert_eq!(score_line("XXXX___XX_X"), 0);
    assert_eq!(score_line(""), 0);
}

#[test]
fn lone_stone_scores_nothing() {
    assert_eq!(score_line("X__O__X"), 0);
    assert_eq!(score_line("XO"), 0);
}
