//! Main menu logic: which buttons there are, where, and what a tap picks.
use vstd::prelude::*;

verus! {

pub const BTN_W: u32 = 600;

pub const BTN_H: u32 = 110;

/// `(SCREEN_W - BTN_W) / 2`.
pub const BTN_X: i32 = 402;

pub const BTN_Y0: i32 = 500;

pub const BTN_GAP: i32 = 30;

#[derive(Clone, Copy, PartialEq, Eq, Debug, Structural)]
pub enum MenuItem {
    PlayAi,
    PlayLocal,
    Continue,
    Settings,
    Exit,
}

/// A menu button: what it does, its rectangle, and the key of its label.
#[derive(Clone, Copy, Debug)]
pub struct MenuButton {
    pub kind: MenuItem,
    pub top: u32,
    pub left: u32,
    pub width: u32,
    pub height: u32,
    pub label_key: &'static str,
}

/// The menu entries, top to bottom; "Continue" only when a saved game exists.
pub open spec fn menu_kinds(savestate_exists: bool) -> Seq<MenuItem> {
    if savestate_exists {
        seq![MenuItem::PlayAi, MenuItem::PlayLocal, MenuItem::Continue, MenuItem::Settings, MenuItem::Exit]
    } else {
        seq![MenuItem::PlayAi, MenuItem::PlayLocal, MenuItem::Settings, MenuItem::Exit]
    }
}

pub open spec fn label_of(kind: MenuItem) -> Seq<char> {
    match kind {
        MenuItem::PlayAi => "menu.play_ai"@,
        MenuItem::PlayLocal => "menu.play_local"@,
        MenuItem::Continue => "menu.continue"@,
        MenuItem::Settings => "menu.settings"@,
        MenuItem::Exit => "menu.exit"@,
    }
}

/// Button `i` of the menu, stacked from `BTN_Y0` down.
pub open spec fn button_ok(b: MenuButton, i: int, kind: MenuItem) -> bool {
    &&& b.kind == kind
    &&& b.top == BTN_Y0 + i * (BTN_H + BTN_GAP)
    &&& b.left == BTN_X
    &&& b.width == BTN_W
    &&& b.height == BTN_H
    &&& b.label_key@ == label_of(kind)
}

pub open spec fn hit(b: MenuButton, x: int, y: int) -> bool {
    b.left <= x < b.left + b.width && b.top <= y < b.top + b.height
}

/// The first button (from the top) that holds (x, y).
pub open spec fn item_at_spec(items: Seq<MenuButton>, x: int, y: int) -> Option<MenuItem>
    decreases items.len(),
{
    if items.len() == 0 {
        None
    } else if hit(items[0], x, y) {
        Some(items[0].kind)
    } else {
        item_at_spec(items.drop_first(), x, y)
    }
}

fn push_button(items: &mut Vec<MenuButton>, kind: MenuItem, label_key: &'static str, y: &mut i32)
    requires
        0 <= *old(y) <= 100_000,
    ensures
        final(items)@ == old(items)@.push(
            MenuButton { kind, top: *old(y) as u32, left: BTN_X as u32, width: BTN_W, height: BTN_H, label_key },
        ),
        *final(y) == *old(y) + BTN_H + BTN_GAP,
{
    items.push(
        MenuButton { kind, top: *y as u32, left: BTN_X as u32, width: BTN_W, height: BTN_H, label_key },
    );
    *y = *y + BTN_H as i32 + BTN_GAP;
}

/// The menu buttons, top to bottom.
pub fn menu_items(savestate_exists: bool) -> (items: Vec<MenuButton>)
    ensures
        items@.len() == menu_kinds(savestate_exists).len(),
        forall|i: int| 0 <= i < items@.len() ==> button_ok(#[trigger] items@[i], i, menu_kinds(savestate_exists)[i]),
{
    let mut items: Vec<MenuButton> = Vec::new();
    let mut y = BTN_Y0;
    push_button(&mut items, MenuItem::PlayAi, "menu.play_ai", &mut y);
    push_button(&mut items, MenuItem::PlayLocal, "menu.play_local", &mut y);
    if savestate_exists {
        push_button(&mut items, MenuItem::Continue, "menu.continue", &mut y);
    }
    push_button(&mut items, MenuItem::Settings, "menu.settings", &mut y);
    push_button(&mut items, MenuItem::Exit, "menu.exit", &mut y);
    proof {
        assert forall|i: int| 0 <= i < items@.len() implies button_ok(#[trigger] items@[i], i, menu_kinds(savestate_exists)[i]) by {
            if savestate_exists {
                assert(menu_kinds(savestate_exists)[i] == items@[i].kind);
            } else {
                assert(menu_kinds(savestate_exists)[i] == items@[i].kind);
            }
        }
    }
    items
}

/// What a tap at (x, y) picks, if anything.
pub fn item_at(items: &Vec<MenuButton>, x: i32, y: i32) -> (r: Option<MenuItem>)
    requires
        forall|i: int| 0 <= i < items@.len() ==> #[trigger] items@[i].left + items@[i].width <= i32::MAX
            && items@[i].top + items@[i].height <= i32::MAX,
    ensures
        r == item_at_spec(items@, x as int, y as int),
{
    let n = items.len();
    let mut k: usize = 0;
    assert(items@.skip(0) =~= items@);
    while k < n
        invariant
            n == items@.len(),
            k <= n,
            forall|i: int| 0 <= i < items@.len() ==> #[trigger] items@[i].left + items@[i].width <= i32::MAX
                && items@[i].top + items@[i].height <= i32::MAX,
            item_at_spec(items@, x as int, y as int) == item_at_spec(items@.skip(k as int), x as int, y as int),
        decreases n - k,
    {
        let it = items[k];
        proof {
            assert(items@.skip(k as int)[0] == it);
            assert(items@.skip(k as int).drop_first() =~= items@.skip(k + 1));
        }
        if x >= it.left as i32 && x < (it.left as i32 + it.width as i32) && y >= it.top as i32 && y < (
        it.top as i32 + it.height as i32) {
            return Some(it.kind);
        }
        k = k + 1;
    }
    assert(items@.skip(n as int).len() == 0);
    None
}

/// A tap on a button, with none of the buttons above it hit, picks that button.
proof fn lemma_item_at_first(items: Seq<MenuButton>, i: int, x: int, y: int)
    requires
        0 <= i < items.len(),
        hit(items[i], x, y),
        forall|k: int| 0 <= k < i ==> !hit(#[trigger] items[k], x, y),
    ensures
        item_at_spec(items, x, y) == Some(items[i].kind),
    decreases i,
{
    if i > 0 {
        assert(!hit(items[0], x, y));
        let rest = items.drop_first();
        assert forall|k: int| 0 <= k < i - 1 implies !hit(#[trigger] rest[k], x, y) by {
            assert(rest[k] == items[k + 1]);
        }
        assert(rest[i - 1] == items[i]);
        lemma_item_at_first(rest, i - 1, x, y);
    }
}

/// The menu reads, from the top: play against the AI, play locally, continue the saved
/// game (only when there is one), settings, exit; a tap on a button's row picks it.
pub proof fn law_menu_buttons_in_order(savestate_exists: bool, items: Seq<MenuButton>, i: int, x: int, y: int)
    requires
        items.len() == menu_kinds(savestate_exists).len(),
        forall|k: int| 0 <= k < items.len() ==> button_ok(#[trigger] items[k], k, menu_kinds(savestate_exists)[k]),
        0 <= i < items.len(),
        BTN_X <= x < BTN_X + BTN_W,
        BTN_Y0 + i * (BTN_H + BTN_GAP) <= y < BTN_Y0 + i * (BTN_H + BTN_GAP) + BTN_H,
    ensures
        item_at_spec(items, x, y) == Some(
            if savestate_exists {
                seq![MenuItem::PlayAi, MenuItem::PlayLocal, MenuItem::Continue, MenuItem::Settings, MenuItem::Exit][i]
            } else {
                seq![MenuItem::PlayAi, MenuItem::PlayLocal, MenuItem::Settings, MenuItem::Exit][i]
            },
        ),
{
    assert forall|k: int| 0 <= k < i implies !hit(#[trigger] items[k], x, y) by {
        assert(button_ok(items[k], k, menu_kinds(savestate_exists)[k]));
        assert(k * (BTN_H + BTN_GAP) + BTN_H <= i * (BTN_H + BTN_GAP)) by (nonlinear_arith)
            requires
                0 <= k < i,
        ;
    }
    assert(button_ok(items[i], i, menu_kinds(savestate_exists)[i]));
    lemma_item_at_first(items, i, x, y);
}

} // verus!
