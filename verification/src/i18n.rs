//! Bilingual UI string lookup.
//!
//! Rendering the Chinese strings needs a font with CJK coverage on the device.
use vstd::prelude::*;
use vstd::string::*;

verus! {

#[derive(Clone, Copy, PartialEq, Eq, Debug, Structural)]
pub enum Lang {
    Zh,
    En,
}

/// Whether the two strings hold the same characters, compared one by one.
fn str_eq(a: &str, b: &str) -> (r: bool)
    ensures
        r == (a@ == b@),
{
    let n = a.unicode_len();
    if n != b.unicode_len() {
        return false;
    }
    let mut i: usize = 0;
    while i < n
        invariant
            n == a@.len(),
            n == b@.len(),
            i <= n,
            forall|k: int| 0 <= k < i ==> a@[k] == b@[k],
        decreases n - i,
    {
        if a.get_char(i) != b.get_char(i) {
            return false;
        }
        i = i + 1;
    }
    assert(a@ =~= b@);
    true
}

/// The UI text for `key` in `lang`; unknown keys stand for themselves.
pub open spec fn translation(lang: Lang, key: Seq<char>) -> Seq<char> {
    if key == "menu.title"@ {
        if lang == Lang::Zh {
            "五子棋"@
        } else {
            "Gomoku"@
        }
    } else if key == "menu.play_ai"@ {
        if lang == Lang::Zh {
            "人机对战"@
        } else {
            "Play vs AI"@
        }
    } else if key == "menu.play_local"@ {
        if lang == Lang::Zh {
            "本地双人"@
        } else {
            "Local 2P"@
        }
    } else if key == "menu.continue"@ {
        if lang == Lang::Zh {
            "继续棋局"@
        } else {
            "Continue"@
        }
    } else if key == "menu.settings"@ {
        if lang == Lang::Zh {
            "设置"@
        } else {
            "Settings"@
        }
    } else if key == "menu.exit"@ {
        if lang == Lang::Zh {
            "退出"@
        } else {
            "Exit"@
        }
    } else if key == "settings.title"@ {
        if lang == Lang::Zh {
            "设置"@
        } else {
            "Settings"@
        }
    } else if key == "settings.difficulty"@ {
        if lang == Lang::Zh {
            "难度"@
        } else {
            "Difficulty"@
        }
    } else if key == "settings.easy"@ {
        if lang == Lang::Zh {
            "简单"@
        } else {
            "Easy"@
        }
    } else if key == "settings.medium"@ {
        if lang == Lang::Zh {
            "中等"@
        } else {
            "Medium"@
        }
    } else if key == "settings.hard"@ {
        if lang == Lang::Zh {
            "困难"@
        } else {
            "Hard"@
        }
    } else if key == "settings.language"@ {
        if lang == Lang::Zh {
            "语言"@
        } else {
            "Language"@
        }
    } else if key == "settings.lang_zh"@ {
        if lang == Lang::Zh {
            "中文"@
        } else {
            "中文"@
        }
    } else if key == "settings.lang_en"@ {
        if lang == Lang::Zh {
            "English"@
        } else {
            "English"@
        }
    } else if key == "settings.ai_side"@ {
        if lang == Lang::Zh {
            "AI 执子"@
        } else {
            "AI plays"@
        }
    } else if key == "settings.black"@ {
        if lang == Lang::Zh {
            "黑棋"@
        } else {
            "Black"@
        }
    } else if key == "settings.white"@ {
        if lang == Lang::Zh {
            "白棋"@
        } else {
            "White"@
        }
    } else if key == "settings.back"@ {
        if lang == Lang::Zh {
            "返回"@
        } else {
            "Back"@
        }
    } else if key == "game.undo"@ {
        if lang == Lang::Zh {
            "悔棋"@
        } else {
            "Undo"@
        }
    } else if key == "game.save_quit"@ {
        if lang == Lang::Zh {
            "保存退出"@
        } else {
            "Save & Quit"@
        }
    } else if key == "game.thinking"@ {
        if lang == Lang::Zh {
            "AI 思考中…"@
        } else {
            "AI thinking…"@
        }
    } else if key == "game.win_black"@ {
        if lang == Lang::Zh {
            "黑棋胜"@
        } else {
            "Black Wins"@
        }
    } else if key == "game.win_white"@ {
        if lang == Lang::Zh {
            "白棋胜"@
        } else {
            "White Wins"@
        }
    } else if key == "game.tap_again"@ {
        if lang == Lang::Zh {
            "点击重开一局"@
        } else {
            "Tap to play again"@
        }
    } else {
        key
    }
}

/// Look up a UI string by key in the given language. Falls back to the key itself
/// when it is unknown.
pub fn t<'a>(lang: Lang, key: &'a str) -> (r: &'a str)
    ensures
        r@ == translation(lang, key@),
{
    if str_eq(key, "menu.title") {
        match lang {
            Lang::Zh => "五子棋",
            Lang::En => "Gomoku",
        }
    } else if str_eq(key, "menu.play_ai") {
        match lang {
            Lang::Zh => "人机对战",
            Lang::En => "Play vs AI",
        }
    } else if str_eq(key, "menu.play_local") {
        match lang {
            Lang::Zh => "本地双人",
            Lang::En => "Local 2P",
        }
    } else if str_eq(key, "menu.continue") {
        match lang {
            Lang::Zh => "继续棋局",
            Lang::En => "Continue",
        }
    } else if str_eq(key, "menu.settings") {
        match lang {
            Lang::Zh => "设置",
            Lang::En => "Settings",
        }
    } else if str_eq(key, "menu.exit") {
        match lang {
            Lang::Zh => "退出",
            Lang::En => "Exit",
        }
    } else if str_eq(key, "settings.title") {
        match lang {
            Lang::Zh => "设置",
            Lang::En => "Settings",
        }
    } else if str_eq(key, "settings.difficulty") {
        match lang {
            Lang::Zh => "难度",
            Lang::En => "Difficulty",
        }
    } else if str_eq(key, "settings.easy") {
        match lang {
            Lang::Zh => "简单",
            Lang::En => "Easy",
        }
    } else if str_eq(key, "settings.medium") {
        match lang {
            Lang::Zh => "中等",
            Lang::En => "Medium",
        }
    } else if str_eq(key, "settings.hard") {
        match lang {
            Lang::Zh => "困难",
            Lang::En => "Hard",
        }
    } else if str_eq(key, "settings.language") {
        match lang {
            Lang::Zh => "语言",
            Lang::En => "Language",
        }
    } else if str_eq(key, "settings.lang_zh") {
        match lang {
            Lang::Zh => "中文",
            Lang::En => "中文",
        }
    } else if str_eq(key, "settings.lang_en") {
        match lang {
            Lang::Zh => "English",
            Lang::En => "English",
        }
    } else if str_eq(key, "settings.ai_side") {
        match lang {
            Lang::Zh => "AI 执子",
            Lang::En => "AI plays",
        }
    } else if str_eq(key, "settings.black") {
        match lang {
            Lang::Zh => "黑棋",
            Lang::En => "Black",
        }
    } else if str_eq(key, "settings.white") {
        match lang {
            Lang::Zh => "白棋",
            Lang::En => "White",
        }
    } else if str_eq(key, "settings.back") {
        match lang {
            Lang::Zh => "返回",
            Lang::En => "Back",
        }
    } else if str_eq(key, "game.undo") {
        match lang {
            Lang::Zh => "悔棋",
            Lang::En => "Undo",
        }
    } else if str_eq(key, "game.save_quit") {
        match lang {
            Lang::Zh => "保存退出",
            Lang::En => "Save & Quit",
        }
    } else if str_eq(key, "game.thinking") {
        match lang {
            Lang::Zh => "AI 思考中…",
            Lang::En => "AI thinking…",
        }
    } else if str_eq(key, "game.win_black") {
        match lang {
            Lang::Zh => "黑棋胜",
            Lang::En => "Black Wins",
        }
    } else if str_eq(key, "game.win_white") {
        match lang {
            Lang::Zh => "白棋胜",
            Lang::En => "White Wins",
        }
    } else if str_eq(key, "game.tap_again") {
        match lang {
            Lang::Zh => "点击重开一局",
            Lang::En => "Tap to play again",
        }
    } else {
        key
    }
}

} // verus!
