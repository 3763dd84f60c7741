use gomoku_rm::board::{Board, Color, Pos};
use gomoku_rm::config::{make_game_mode_pvai, Config, Difficulty};
use gomoku_rm::i18n::{t, Lang};
use gomoku_rm::savestate::SColor;
use gomoku_rm::scene::game::{grid_to_px, input_gate_open, px_to_grid, GameMode, GameScene};
use gomoku_rm::scene::menu::{item_at, menu_items, MenuItem};
use gomoku_rm::scene::settings::{ButtonRect, SettingsChoice, SettingsLayout};

#[test]
fn grid_geometry() {
    assert_eq!(grid_to_px(Pos::new(0, 0)), (36, 280));
    assert_eq!(grid_to_px(Pos::new(18, 18)), (36 + 18 * 74, 280 + 18 * 74));
}

#[test]
fn tap_on_intersection_selects_it() {
    for c in 0..19 {
        for r in 0..19 {
            let p = Pos::new(c, r);
            let (x, y) = grid_to_px(p);
            assert_eq!(px_to_grid(x, y), Some(p));
        }
    }
}

#[test]
fn tap_near_and_far() {
    // Within the hit radius: the nearest intersection.
    assert_eq!(px_to_grid(36 + 20, 280 + 20), Some(Pos::new(0, 0)));
    // Halfway between two intersections horizontally, 37 px from each: column 1.
    assert_eq!(px_to_grid(36 + 37, 280), Some(Pos::new(1, 0)));
    // Too far from any intersection.
    assert_eq!(px_to_grid(36 + 30, 280 + 30), None);
    // Just outside the grid but within the radius of an edge intersection.
    assert_eq!(px_to_grid(36 - 37, 280), Some(Pos::new(0, 0)));
    assert_eq!(px_to_grid(702, 242), Some(Pos::new(9, 0)));
    assert_eq!(px_to_grid(36 + 18 * 74 + 39, 280 + 18 * 74), Some(Pos::new(18, 18)));
    // Too far outside the grid.
    assert_eq!(px_to_grid(0, 0), None);
    assert_eq!(px_to_grid(36 - 41, 280), None);
    assert_eq!(px_to_grid(5000, 5000), None);
}

#[test]
fn difficulty_depths() {
    assert_eq!(Difficulty::Easy.depth(), 2);
    assert_eq!(Difficulty::Medium.depth(), 4);
    assert_eq!(Difficulty::Hard.depth(), 6);
}

#[test]
fn default_config_and_mode() {
    let c = Config::default();
    assert_eq!(c.language, Lang::En);
    assert_eq!(c.difficulty, Difficulty::Medium);
    assert_eq!(c.ai_side, SColor::White);
    assert_eq!(c.time_budget_ms, 3000);
    let m = make_game_mode_pvai(&c);
    assert!(matches!(m, GameMode::PvAi { ai: Color::White, depth: 4, time_budget_ms: 3000 }));
}

#[test]
fn translations() {
    assert_eq!(t(Lang::En, "menu.title"), "Gomoku");
    assert_eq!(t(Lang::Zh, "menu.title"), "五子棋");
    assert_eq!(t(Lang::En, "game.tap_again"), "Tap to play again");
    assert_eq!(t(Lang::Zh, "settings.lang_en"), "English");
    assert_eq!(t(Lang::En, "no.such.key"), "no.such.key");
}

#[test]
fn button_contains() {
    let b = ButtonRect { x: 10, y: 20, w: 5, h: 5 };
    assert!(b.contains(10, 20));
    assert!(b.contains(14, 24));
    assert!(!b.contains(15, 20));
    assert!(!b.contains(10, 25));
    assert!(!b.contains(9, 20));
}

#[test]
fn settings_taps() {
    let l = SettingsLayout::new();
    // Difficulty row: three 280-wide buttons centred at y = 350.
    let d = l.diff_btns;
    assert_eq!(d[0].x, 252);
    assert_eq!(d[1].x, 562);
    assert_eq!(d[2].x, 872);
    assert!(matches!(l.choice_at(260, 360), Some(SettingsChoice::Difficulty(Difficulty::Easy))));
    assert!(matches!(l.choice_at(900, 360), Some(SettingsChoice::Difficulty(Difficulty::Hard))));
    assert!(matches!(l.choice_at(400, 530), Some(SettingsChoice::Language(Lang::Zh))));
    assert!(matches!(l.choice_at(800, 700), Some(SettingsChoice::AiSide(SColor::White))));
    assert!(matches!(l.choice_at(600, 910), Some(SettingsChoice::Back)));
    assert!(l.choice_at(5, 5).is_none());
}

#[test]
fn menu_layout_and_taps() {
    let items = menu_items(false);
    assert_eq!(items.len(), 4);
    assert_eq!(items[2].kind, MenuItem::Settings);
    assert_eq!(items[2].top, 500 + 2 * 140);
    let with_save = menu_items(true);
    assert_eq!(with_save.len(), 5);
    assert_eq!(with_save[2].kind, MenuItem::Continue);
    assert_eq!(with_save[2].label_key, "menu.continue");
    assert_eq!(item_at(&with_save, 500, 510), Some(MenuItem::PlayAi));
    assert_eq!(item_at(&with_save, 500, 500 + 140 * 4 + 5), Some(MenuItem::Exit));
    assert_eq!(item_at(&with_save, 500, 620), None);
    assert_eq!(item_at(&with_save, 100, 510), None);
}

#[test]
fn local_game_taps_alternate_and_win() {
    let mut s = GameScene::with_mode(GameMode::Pvp);
    for i in 0..4 {
        let (x, y) = grid_to_px(Pos::new(4 + i, 9));
        s.on_tap(x, y);
        let (x, y) = grid_to_px(Pos::new(4 + i, 10));
        s.on_tap(x, y);
    }
    assert_eq!(s.board().history.len(), 8);
    assert_eq!(s.winner(), None);
    // Tapping an occupied cell does nothing.
    let (x, y) = grid_to_px(Pos::new(4, 9));
    s.on_tap(x, y);
    assert_eq!(s.board().history.len(), 8);
    let (x, y) = grid_to_px(Pos::new(8, 9));
    s.on_tap(x, y);
    assert_eq!(s.winner(), Some(Color::Black));
    assert_eq!(s.take_full_redraw().map(|v| v.len()), Some(9));
    assert_eq!(s.take_banner(), Some(Some(Color::Black)));
    assert_eq!(s.take_banner(), None);
    // The next tap starts a new game.
    s.on_tap(0, 0);
    assert_eq!(s.board().history.len(), 0);
    assert_eq!(s.winner(), None);
    assert!(s.take_full_redraw().is_some());
    assert!(s.take_full_redraw().is_none());
}

#[test]
fn ai_answers_in_game() {
    let mut s = GameScene::with_mode(GameMode::PvAi { ai: Color::White, depth: 1, time_budget_ms: 300 });
    assert_eq!(s.ai_to_move(), None);
    let (x, y) = grid_to_px(Pos::new(9, 9));
    s.on_tap(x, y);
    assert_eq!(s.take_new_moves(), vec![(Pos::new(9, 9), Color::Black)]);
    assert_eq!(s.ai_to_move(), Some(Color::White));
    let mv = s.play_ai_move().expect("the AI moves");
    assert_eq!(s.board().get(mv), Some(Color::White));
    assert_eq!(s.board().history.len(), 2);
    assert!(s.take_new_moves().is_empty());
    assert_eq!(s.ai_to_move(), None);
}

#[test]
fn resume_continues_saved_game() {
    let mut b = Board::new();
    b.place(Pos::new(9, 9), Color::Black);
    let s = GameScene::resume(GameMode::Pvp, b);
    assert_eq!(s.board().history.len(), 1);
    assert_eq!(s.winner(), None);
    let fresh = GameScene::new();
    assert!(matches!(fresh.mode(), GameMode::PvAi { ai: Color::White, depth: 4, time_budget_ms: 3000 }));
}

#[test]
fn input_gate_opens_after_delay() {
    assert!(!input_gate_open(0));
    assert!(!input_gate_open(249));
    assert!(input_gate_open(250));
    assert!(input_gate_open(10_000));
}

#[test]
fn ai_move_needs_ai_mode_and_room() {
    // A local game has no AI to move.
    let mut s = GameScene::with_mode(GameMode::Pvp);
    assert_eq!(s.play_ai_move(), None);
    assert_eq!(s.board().history.len(), 0);

    // On a full board the AI has nowhere to play.
    let mut b = Board::new();
    for col in 0..19 {
        for row in 0..19 {
            let c = if ((row / 2) + col) % 2 == 0 { Color::Black } else { Color::White };
            assert!(b.place(Pos::new(col, row), c));
        }
    }
    let mode = GameMode::PvAi { ai: Color::White, depth: 1, time_budget_ms: 100 };
    let mut full = GameScene::resume(mode, b);
    assert_eq!(full.play_ai_move(), None);
    assert_eq!(full.board().history.len(), 361);

    // On an empty board the AI takes the centre.
    let mut fresh = GameScene::with_mode(mode);
    assert_eq!(fresh.play_ai_move(), Some(Pos::new(9, 9)));
}

#[test]
fn ai_turn_taps_are_ignored() {
    let mode = GameMode::PvAi { ai: Color::Black, depth: 1, time_budget_ms: 100 };
    let mut s = GameScene::with_mode(mode);
    // Black is the AI and moves first: the human's tap places nothing.
    let (x, y) = grid_to_px(Pos::new(9, 9));
    s.on_tap(x, y);
    assert_eq!(s.board().history.len(), 0);
    let mv = s.play_ai_move().expect("the AI moves");
    assert_eq!(mv, Pos::new(9, 9));
    // Now it is White's, the human's, turn.
    let (x, y) = grid_to_px(Pos::new(10, 10));
    s.on_tap(x, y);
    assert_eq!(s.board().history.len(), 2);
    assert_eq!(s.board().get(Pos::new(10, 10)), Some(Color::White));
}
