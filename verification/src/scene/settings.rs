//! Settings screen logic: where the buttons are, and what a tap chooses.
use vstd::prelude::*;
use crate::config::Difficulty;
use crate::i18n::Lang;
use crate::savestate::SColor;
use crate::scene::game::SCREEN_W;

verus! {

/// A button's rectangle on screen.
#[derive(Clone, Copy, Debug)]
pub struct ButtonRect {
    pub x: i32,
    pub y: i32,
    pub w: u32,
    pub h: u32,
}

impl ButtonRect {
    /// (px, py) lies in the rectangle (width and height taken as `i32`).
    pub open spec fn contains_spec(self, px: int, py: int) -> bool {
        &&& self.x <= px < self.x + (self.w as i32)
        &&& self.y <= py < self.y + (self.h as i32)
    }

    pub fn contains(&self, px: i32, py: i32) -> (r: bool)
        requires
            self.x + (self.w as i32) <= i32::MAX,
            self.x + (self.w as i32) >= i32::MIN,
            self.y + (self.h as i32) <= i32::MAX,
            self.y + (self.h as i32) >= i32::MIN,
        ensures
            r == self.contains_spec(px as int, py as int),
    {
        px >= self.x && px < self.x + self.w as i32 && py >= self.y && py < self.y + self.h as i32
    }
}

pub const ROW_H: i32 = 130;

pub const ROW_LABEL_X: i32 = 120;

pub const ROW_LABEL_Y_OFFSET: i32 = 80;

pub const BTN_H: u32 = 90;

pub const BTN_GAP: i32 = 30;

pub const ROW_Y_DIFF: i32 = 350;

/// `ROW_Y_DIFF + ROW_H + 40`.
pub const ROW_Y_LANG: i32 = 520;

/// `ROW_Y_LANG + ROW_H + 40`.
pub const ROW_Y_AI: i32 = 690;

/// `ROW_Y_AI + ROW_H + 80`.
pub const ROW_Y_BACK: i32 = 900;

/// `v / 2` rounded toward zero.
pub open spec fn half(v: int) -> int {
    if v >= 0 {
        v / 2
    } else {
        -((-v) / 2)
    }
}

/// The left edge of a centred row of `n` buttons of width `w`.
pub open spec fn row_start(n: int, w: int) -> int {
    half(SCREEN_W - (n * w + (n - 1) * BTN_GAP))
}

/// The `i`-th of a centred row of `n` buttons of width `w` at height `y`.
pub open spec fn row_button(n: int, i: int, y: int, w: int) -> ButtonRect {
    ButtonRect {
        x: (row_start(n, w) + i * (w + BTN_GAP)) as i32,
        y: y as i32,
        w: w as u32,
        h: BTN_H,
    }
}

/// A centred row of three buttons of width `w` at height `y`.
fn three_buttons(y: i32, w: u32) -> (r: [ButtonRect; 3])
    requires
        w <= 100_000,
    ensures
        r@ == seq![row_button(3, 0, y as int, w as int), row_button(3, 1, y as int, w as int), row_button(3, 2, y as int, w as int)],
{
    let total_w = 3 * w as i32 + 2 * BTN_GAP;
    let start_x = (SCREEN_W - total_w) / 2;
    let r = [
        ButtonRect { x: start_x, y, w, h: BTN_H },
        ButtonRect { x: start_x + w as i32 + BTN_GAP, y, w, h: BTN_H },
        ButtonRect { x: start_x + 2 * (w as i32 + BTN_GAP), y, w, h: BTN_H },
    ];
    assert(r@ =~= seq![row_button(3, 0, y as int, w as int), row_button(3, 1, y as int, w as int), row_button(3, 2, y as int, w as int)]);
    r
}

/// A centred row of two buttons of width `w` at height `y`.
fn two_buttons(y: i32, w: u32) -> (r: [ButtonRect; 2])
    requires
        w <= 100_000,
    ensures
        r@ == seq![row_button(2, 0, y as int, w as int), row_button(2, 1, y as int, w as int)],
{
    let total_w = 2 * w as i32 + BTN_GAP;
    let start_x = (SCREEN_W - total_w) / 2;
    let r = [
        ButtonRect { x: start_x, y, w, h: BTN_H },
        ButtonRect { x: start_x + w as i32 + BTN_GAP, y, w, h: BTN_H },
    ];
    assert(r@ =~= seq![row_button(2, 0, y as int, w as int), row_button(2, 1, y as int, w as int)]);
    r
}

/// What a tap on the settings screen chooses.
#[derive(Clone, Copy, Debug)]
pub enum SettingsChoice {
    Difficulty(Difficulty),
    Language(Lang),
    AiSide(SColor),
    Back,
}

pub open spec fn difficulty_choice(i: int) -> Difficulty {
    if i == 0 {
        Difficulty::Easy
    } else if i == 1 {
        Difficulty::Medium
    } else {
        Difficulty::Hard
    }
}

pub open spec fn lang_choice(i: int) -> Lang {
    if i == 0 {
        Lang::Zh
    } else {
        Lang::En
    }
}

pub open spec fn side_choice(i: int) -> SColor {
    if i == 0 {
        SColor::Black
    } else {
        SColor::White
    }
}

/// The button rows of the settings screen: difficulty, language, AI side, and Back.
pub struct SettingsLayout {
    pub diff_btns: [ButtonRect; 3],
    pub lang_btns: [ButtonRect; 2],
    pub ai_btns: [ButtonRect; 2],
    pub back_btn: ButtonRect,
}

/// The first button of `btns` (in order) that holds (x, y).
pub open spec fn first_hit(btns: Seq<ButtonRect>, x: int, y: int) -> Option<int>
    decreases btns.len(),
{
    if btns.len() == 0 {
        None
    } else {
        match first_hit(btns.drop_last(), x, y) {
            Some(i) => Some(i),
            None => if btns.last().contains_spec(x, y) {
                Some(btns.len() - 1)
            } else {
                None
            },
        }
    }
}

/// Which choice a tap at (x, y) makes: the rows are tried from the top, each row's
/// buttons from the left.
pub open spec fn settings_choice_at(l: SettingsLayout, x: int, y: int) -> Option<SettingsChoice> {
    match first_hit(l.diff_btns@, x, y) {
        Some(i) => Some(SettingsChoice::Difficulty(difficulty_choice(i))),
        None => match first_hit(l.lang_btns@, x, y) {
            Some(i) => Some(SettingsChoice::Language(lang_choice(i))),
            None => match first_hit(l.ai_btns@, x, y) {
                Some(i) => Some(SettingsChoice::AiSide(side_choice(i))),
                None => if l.back_btn.contains_spec(x, y) {
                    Some(SettingsChoice::Back)
                } else {
                    None
                },
            },
        },
    }
}

/// The buttons of the settings screen lie well inside the `i32` range.
pub open spec fn layout_ok(l: SettingsLayout) -> bool {
    &&& forall|i: int| 0 <= i < 3 ==> #[trigger] button_ok(l.diff_btns@[i])
    &&& forall|i: int| 0 <= i < 2 ==> #[trigger] button_ok(l.lang_btns@[i])
    &&& forall|i: int| 0 <= i < 2 ==> #[trigger] button_ok(l.ai_btns@[i])
    &&& button_ok(l.back_btn)
}

pub open spec fn button_ok(b: ButtonRect) -> bool {
    -1_000_000 <= b.x <= 1_000_000 && -1_000_000 <= b.y <= 1_000_000 && b.w <= 1_000_000 && b.h
        <= 1_000_000
}

proof fn lemma_first_hit_step(btns: Seq<ButtonRect>, k: int, x: int, y: int)
    requires
        0 <= k < btns.len(),
    ensures
        first_hit(btns.take(k + 1), x, y) == (match first_hit(btns.take(k), x, y) {
            Some(i) => Some(i),
            None => if btns[k].contains_spec(x, y) {
                Some(k)
            } else {
                None
            },
        }),
{
    assert(btns.take(k + 1).drop_last() =~= btns.take(k));
}

/// The first of `btns` that holds (x, y), by index.
fn first_hit_exec(btns: &[ButtonRect], x: i32, y: i32) -> (r: Option<usize>)
    requires
        forall|i: int| 0 <= i < btns@.len() ==> #[trigger] button_ok(btns@[i]),
    ensures
        r matches Some(i) ==> first_hit(btns@, x as int, y as int) == Some(i as int),
        r is None ==> first_hit(btns@, x as int, y as int) is None,
{
    let n = btns.len();
    let mut k: usize = 0;
    while k < n
        invariant
            n == btns@.len(),
            k <= n,
            forall|i: int| 0 <= i < btns@.len() ==> #[trigger] button_ok(btns@[i]),
            first_hit(btns@.take(k as int), x as int, y as int) is None,
        decreases n - k,
    {
        proof {
            lemma_first_hit_step(btns@, k as int, x as int, y as int);
        }
        assert(button_ok(btns@[k as int]));
        if btns[k].contains(x, y) {
            proof {
                lemma_first_hit_prefix(btns@, k + 1, x as int, y as int);
            }
            return Some(k);
        }
        k = k + 1;
    }
    assert(btns@.take(n as int) =~= btns@);
    None
}

proof fn lemma_first_hit_prefix(btns: Seq<ButtonRect>, k: int, x: int, y: int)
    requires
        0 <= k <= btns.len(),
        first_hit(btns.take(k), x, y) is Some,
    ensures
        first_hit(btns, x, y) == first_hit(btns.take(k), x, y),
    decreases btns.len() - k,
{
    if k < btns.len() {
        lemma_first_hit_step(btns, k, x, y);
        lemma_first_hit_prefix(btns, k + 1, x, y);
    } else {
        assert(btns.take(k) =~= btns);
    }
}

impl SettingsLayout {
    pub fn new() -> (l: SettingsLayout)
        ensures
            l.diff_btns@ == seq![row_button(3, 0, ROW_Y_DIFF as int, 280), row_button(3, 1, ROW_Y_DIFF as int, 280), row_button(3, 2, ROW_Y_DIFF as int, 280)],
            l.lang_btns@ == seq![row_button(2, 0, ROW_Y_LANG as int, 320), row_button(2, 1, ROW_Y_LANG as int, 320)],
            l.ai_btns@ == seq![row_button(2, 0, ROW_Y_AI as int, 320), row_button(2, 1, ROW_Y_AI as int, 320)],
            l.back_btn == (ButtonRect { x: 542, y: ROW_Y_BACK, w: 320, h: BTN_H }),
            layout_ok(l),
    {
        let l = SettingsLayout {
            diff_btns: three_buttons(ROW_Y_DIFF, 280),
            lang_btns: two_buttons(ROW_Y_LANG, 320),
            ai_btns: two_buttons(ROW_Y_AI, 320),
            back_btn: ButtonRect { x: (SCREEN_W - 320) / 2, y: ROW_Y_BACK, w: 320, h: BTN_H },
        };
        assert(layout_ok(l));
        l
    }

    /// What a tap at (x, y) chooses, if anything.
    pub fn choice_at(&self, x: i32, y: i32) -> (r: Option<SettingsChoice>)
        requires
            layout_ok(*self),
        ensures
            r == settings_choice_at(*self, x as int, y as int),
    {
        // Difficulty
        match first_hit_exec(&self.diff_btns, x, y) {
            Some(i) => {
                let d = if i == 0 {
                    Difficulty::Easy
                } else if i == 1 {
                    Difficulty::Medium
                } else {
                    Difficulty::Hard
                };
                return Some(SettingsChoice::Difficulty(d));
            },
            None => {},
        }
        // Language
        match first_hit_exec(&self.lang_btns, x, y) {
            Some(i) => {
                let l = if i == 0 {
                    Lang::Zh
                } else {
                    Lang::En
                };
                return Some(SettingsChoice::Language(l));
            },
            None => {},
        }
        // AI side
        match first_hit_exec(&self.ai_btns, x, y) {
            Some(i) => {
                let s = if i == 0 {
                    SColor::Black
                } else {
                    SColor::White
                };
                return Some(SettingsChoice::AiSide(s));
            },
            None => {},
        }
        // Back
        if self.back_btn.contains(x, y) {
            return Some(SettingsChoice::Back);
        }
        None
    }
}

/// The settings buttons, each row read from the left, choose in the order the screen
/// lists them: difficulty Easy, Medium, Hard (searching 2, 4 and 6 plies); language
/// Chinese, English; AI side Black, White. A tap in a button of an upper row is that
/// row's choice.
pub proof fn law_settings_buttons_in_order(l: SettingsLayout, x: int, y: int, i: int)
    ensures
        first_hit(l.diff_btns@, x, y) == Some(i) ==> settings_choice_at(l, x, y) == Some(
            SettingsChoice::Difficulty(seq![Difficulty::Easy, Difficulty::Medium, Difficulty::Hard][i]),
        ) && seq![2u8, 4u8, 6u8][i] == seq![Difficulty::Easy, Difficulty::Medium, Difficulty::Hard][i].spec_depth(),
        first_hit(l.diff_btns@, x, y) is None && first_hit(l.lang_btns@, x, y) == Some(i) ==> settings_choice_at(
            l,
            x,
            y,
        ) == Some(SettingsChoice::Language(seq![Lang::Zh, Lang::En][i])),
        first_hit(l.diff_btns@, x, y) is None && first_hit(l.lang_btns@, x, y) is None && first_hit(
            l.ai_btns@,
            x,
            y,
        ) == Some(i) ==> settings_choice_at(l, x, y) == Some(SettingsChoice::AiSide(seq![SColor::Black, SColor::White][i])),
{
    lemma_first_hit_range(l.diff_btns@, x, y);
    lemma_first_hit_range(l.lang_btns@, x, y);
    lemma_first_hit_range(l.ai_btns@, x, y);
}

/// A button found is one of the row's.
proof fn lemma_first_hit_range(btns: Seq<ButtonRect>, x: int, y: int)
    ensures
        first_hit(btns, x, y) matches Some(i) ==> 0 <= i < btns.len(),
    decreases btns.len(),
{
    if btns.len() > 0 {
        lemma_first_hit_range(btns.drop_last(), x, y);
    }
}

} // verus!
