use gomoku_rm::board::{Board, Color, Pos};
use gomoku_rm::savestate::{SColor, SMode, SMove, Savestate};
use gomoku_rm::scene::game::GameMode;

#[test]
fn roundtrip_color() {
    for c in [Color::Black, Color::White] {
        let s: SColor = c.into();
        let back: Color = s.into();
        assert_eq!(c, back);
    }
}

#[test]
fn roundtrip_savestate() {
    let mut b = Board::new();
    b.place(Pos::new(9, 9), Color::Black);
    b.place(Pos::new(8, 8), Color::White);
    let mode = GameMode::PvAi {
        ai: Color::White,
        depth: 4,
        time_budget_ms: 3000,
    };
    let s = Savestate::from_board(&b, mode);
    // The save file itself is written and read by the application.
    let back = Savestate { history: s.history.clone(), mode: s.mode };
    let mut b2 = Board::new();
    back.restore_into(&mut b2);
    assert_eq!(b2.history.len(), 2);
    assert_eq!(b2.get(Pos::new(9, 9)), Some(Color::Black));
    assert_eq!(b2.get(Pos::new(8, 8)), Some(Color::White));
}

#[test]
fn from_board_records_moves_and_mode() {
    let mut b = Board::new();
    b.place(Pos::new(3, 7), Color::Black);
    let s = Savestate::from_board(&b, GameMode::Pvp);
    assert_eq!(s.history.len(), 1);
    assert_eq!(s.history[0].col, 3);
    assert_eq!(s.history[0].row, 7);
    assert_eq!(s.history[0].color, SColor::Black);
    assert!(matches!(s.mode, SMode::Pvp));
}

#[test]
fn restore_skips_moves_on_taken_cells() {
    let s = Savestate {
        history: vec![
            SMove { col: 1, row: 1, color: SColor::Black },
            SMove { col: 1, row: 1, color: SColor::White },
            SMove { col: 2, row: 2, color: SColor::White },
        ],
        mode: SMode::Pvp,
    };
    let mut b = Board::new();
    b.place(Pos::new(5, 5), Color::Black);
    s.restore_into(&mut b);
    assert_eq!(b.history.len(), 2);
    assert!(b.is_empty(Pos::new(5, 5)));
    assert_eq!(b.get(Pos::new(1, 1)), Some(Color::Black));
    assert_eq!(b.get(Pos::new(2, 2)), Some(Color::White));
}

#[test]
fn roundtrip_mode() {
    let m = GameMode::PvAi { ai: Color::Black, depth: 6, time_budget_ms: 1234 };
    let s: SMode = m.into();
    match s {
        SMode::PvAi { ai, depth, time_budget_ms } => {
            assert_eq!(ai, SColor::Black);
            assert_eq!(depth, 6);
            assert_eq!(time_budget_ms, 1234);
        }
        SMode::Pvp => panic!("mode lost"),
    }
    let back: GameMode = s.into();
    assert!(matches!(back, GameMode::PvAi { ai: Color::Black, depth: 6, time_budget_ms: 1234 }));
    let p: GameMode = SMode::Pvp.into();
    assert!(matches!(p, GameMode::Pvp));
}
