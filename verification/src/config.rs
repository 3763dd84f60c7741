//! App configuration: language, difficulty, which colour the AI plays.
//!
//! Loading, saving and the process-wide current configuration belong to the
//! application; this module holds the values and what they mean for a game.
use vstd::prelude::*;
use crate::board::Color;
use crate::i18n::Lang;
use crate::savestate::{SColor, color_of};
use crate::scene::game::GameMode;

verus! {

#[derive(Clone, Copy, PartialEq, Eq, Debug, Structural)]
pub enum Difficulty {
    Easy,
    Medium,
    Hard,
}

impl Difficulty {
    pub open spec fn spec_depth(self) -> u8 {
        match self {
            Difficulty::Easy => 2,
            Difficulty::Medium => 4,
            Difficulty::Hard => 6,
        }
    }

    /// Search depth used by the alpha-beta engine.
    pub fn depth(self) -> (r: u8)
        ensures
            r == self.spec_depth(),
    {
        match self {
            Difficulty::Easy => 2,
            Difficulty::Medium => 4,
            Difficulty::Hard => 6,
        }
    }
}

#[derive(Clone, Copy, Debug)]
pub struct Config {
    pub language: Lang,
    pub difficulty: Difficulty,
    pub ai_side: SColor,
    pub time_budget_ms: u64,
}

/// English, medium difficulty, AI playing White (the human, Black, moves first), three
/// seconds per AI move.
pub open spec fn default_config() -> Config {
    Config {
        language: Lang::En,
        difficulty: Difficulty::Medium,
        ai_side: SColor::White,
        time_budget_ms: 3000,
    }
}

impl Default for Config {
    fn default() -> (c: Config)
        ensures
            c == default_config(),
    {
        Config {
            language: Lang::En,
            difficulty: Difficulty::Medium,
            ai_side: SColor::White,  // Black (human) plays first
            time_budget_ms: 3000,
        }
    }
}

/// A game against the AI as the configuration describes it.
pub fn make_game_mode_pvai(cfg: &Config) -> (m: GameMode)
    ensures
        m == (GameMode::PvAi {
            ai: color_of(cfg.ai_side),
            depth: cfg.difficulty.spec_depth(),
            time_budget_ms: cfg.time_budget_ms,
        }),
{
    let ai: Color = Color::from(cfg.ai_side);
    GameMode::PvAi { ai, depth: cfg.difficulty.depth(), time_budget_ms: cfg.time_budget_ms }
}

} // verus!
