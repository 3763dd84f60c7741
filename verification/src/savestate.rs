//! Single-slot game persistence: the moves played and the game mode, as plain data.
//!
//! Reading and writing the save file is the application's business; this module turns
//! a board into save data and back.
use vstd::prelude::*;
use crate::board::{Board, Color, Pos, history_ok, cell_at, group_pos, lemma_cell_of_none};
use crate::scene::game::GameMode;

verus! {

broadcast use group_pos;

#[derive(Debug, Clone, Copy, PartialEq, Eq, Structural)]
pub enum SColor {
    Black,
    White,
}

pub open spec fn scolor_of(c: Color) -> SColor {
    match c {
        Color::Black => SColor::Black,
        Color::White => SColor::White,
    }
}

pub open spec fn color_of(c: SColor) -> Color {
    match c {
        SColor::Black => Color::Black,
        SColor::White => Color::White,
    }
}

impl From<Color> for SColor {
    fn from(c: Color) -> (r: SColor) {
        match c {
            Color::Black => SColor::Black,
            Color::White => SColor::White,
        }
    }
}

impl vstd::std_specs::convert::FromSpecImpl<Color> for SColor {
    open spec fn obeys_from_spec() -> bool {
        true
    }

    open spec fn from_spec(c: Color) -> SColor {
        scolor_of(c)
    }
}

impl From<SColor> for Color {
    fn from(c: SColor) -> (r: Color) {
        match c {
            SColor::Black => Color::Black,
            SColor::White => Color::White,
        }
    }
}

impl vstd::std_specs::convert::FromSpecImpl<SColor> for Color {
    open spec fn obeys_from_spec() -> bool {
        true
    }

    open spec fn from_spec(c: SColor) -> Color {
        color_of(c)
    }
}

#[derive(Debug, Clone, Copy)]
pub struct SMove {
    pub col: u8,
    pub row: u8,
    pub color: SColor,
}

#[derive(Debug, Clone, Copy)]
pub enum SMode {
    Pvp,
    PvAi { ai: SColor, depth: u8, time_budget_ms: u64 },
}

pub open spec fn smode_of(m: GameMode) -> SMode {
    match m {
        GameMode::Pvp => SMode::Pvp,
        GameMode::PvAi { ai, depth, time_budget_ms } => SMode::PvAi {
            ai: scolor_of(ai),
            depth,
            time_budget_ms,
        },
    }
}

pub open spec fn mode_of(m: SMode) -> GameMode {
    match m {
        SMode::Pvp => GameMode::Pvp,
        SMode::PvAi { ai, depth, time_budget_ms } => GameMode::PvAi {
            ai: color_of(ai),
            depth,
            time_budget_ms,
        },
    }
}

impl From<GameMode> for SMode {
    fn from(m: GameMode) -> (r: SMode) {
        match m {
            GameMode::Pvp => SMode::Pvp,
            GameMode::PvAi { ai, depth, time_budget_ms } => SMode::PvAi {
                ai: SColor::from(ai),
                depth,
                time_budget_ms,
            },
        }
    }
}

impl vstd::std_specs::convert::FromSpecImpl<GameMode> for SMode {
    open spec fn obeys_from_spec() -> bool {
        true
    }

    open spec fn from_spec(m: GameMode) -> SMode {
        smode_of(m)
    }
}

impl From<SMode> for GameMode {
    fn from(m: SMode) -> (r: GameMode) {
        match m {
            SMode::Pvp => GameMode::Pvp,
            SMode::PvAi { ai, depth, time_budget_ms } => GameMode::PvAi {
                ai: Color::from(ai),
                depth,
                time_budget_ms,
            },
        }
    }
}

impl vstd::std_specs::convert::FromSpecImpl<SMode> for GameMode {
    open spec fn obeys_from_spec() -> bool {
        true
    }

    open spec fn from_spec(m: SMode) -> GameMode {
        mode_of(m)
    }
}

/// The saved form of one move.
pub open spec fn smove_of(m: (Pos, Color)) -> SMove {
    SMove { col: m.0.col_spec() as u8, row: m.0.row_spec() as u8, color: scolor_of(m.1) }
}

/// The saved form of a game's moves.
pub open spec fn saved_moves(h: Seq<(Pos, Color)>) -> Seq<SMove> {
    h.map_values(|m: (Pos, Color)| smove_of(m))
}

/// A saved move that fits on the board.
pub open spec fn smove_valid(m: SMove) -> bool {
    m.col < 19 && m.row < 19
}

/// The moves that replaying `ms` on an empty board leaves: each saved move is played if
/// its intersection is still empty.
pub open spec fn replay(ms: Seq<SMove>) -> Seq<(Pos, Color)>
    decreases ms.len(),
{
    if ms.len() == 0 {
        Seq::empty()
    } else {
        let prev = replay(ms.drop_last());
        let m = ms.last();
        let p = Pos::at(m.col as int, m.row as int);
        if cell_at(prev, p) is None {
            prev.push((p, color_of(m.color)))
        } else {
            prev
        }
    }
}

pub struct Savestate {
    pub history: Vec<SMove>,
    pub mode: SMode,
}

impl Savestate {
    /// The save data of a game: its moves in order and its mode.
    pub fn from_board(board: &Board, mode: GameMode) -> (s: Savestate)
        requires
            board.wf(),
        ensures
            s.history@ == saved_moves(board@),
            s.mode == smode_of(mode),
    {
        let stones = board.stones();
        let mut history: Vec<SMove> = Vec::new();
        let n = stones.len();
        let mut i: usize = 0;
        while i < n
            invariant
                n == stones@.len(),
                stones@ == board@,
                i <= n,
                history@ =~= stones@.subrange(0, i as int).map_values(|m: (Pos, Color)| smove_of(m)),
            decreases n - i,
        {
            let (p, c) = stones[i];
            let col = p.col();
            let row = p.row();
            history.push(SMove { col: col as u8, row: row as u8, color: SColor::from(c) });
            proof {
                assert(stones@.subrange(0, i + 1) =~= stones@.subrange(0, i as int).push(stones@[i as int]));
            }
            i = i + 1;
        }
        assert(stones@.subrange(0, n as int) =~= stones@);
        Savestate { history, mode: SMode::from(mode) }
    }

    /// Clear `board` and replay the saved moves on it.
    pub fn restore_into(&self, board: &mut Board)
        requires
            old(board).wf(),
            forall|k: int| 0 <= k < self.history@.len() ==> smove_valid(#[trigger] self.history@[k]),
        ensures
            final(board).wf(),
            final(board)@ == replay(self.history@),
    {
        board.reset();
        let n = self.history.len();
        let mut i: usize = 0;
        while i < n
            invariant
                n == self.history@.len(),
                forall|k: int| 0 <= k < self.history@.len() ==> smove_valid(#[trigger] self.history@[k]),
                i <= n,
                board.wf(),
                board@ == replay(self.history@.take(i as int)),
            decreases n - i,
        {
            let m = self.history[i];
            assert(smove_valid(self.history@[i as int]));
            let p = Pos::new(m.col as usize, m.row as usize);
            board.place(p, Color::from(m.color));
            proof {
                let t = self.history@.take(i + 1);
                assert(t.drop_last() =~= self.history@.take(i as int));
                assert(t.last() == m);
            }
            i = i + 1;
        }
        assert(self.history@.take(n as int) =~= self.history@);
    }
}

/// Replaying the save data of a game gives back exactly the moves of that game.
pub proof fn law_save_then_restore(h: Seq<(Pos, Color)>)
    requires
        history_ok(h),
    ensures
        forall|k: int| 0 <= k < h.len() ==> smove_valid(#[trigger] saved_moves(h)[k]),
        replay(saved_moves(h)) == h,
    decreases h.len(),
{
    let ms = saved_moves(h);
    assert forall|k: int| 0 <= k < h.len() implies smove_valid(#[trigger] ms[k]) by {
        assert(h[k].0.valid());
    }
    if h.len() > 0 {
        let d = h.drop_last();
        assert forall|i: int| 0 <= i < d.len() implies (#[trigger] d[i]).0.valid() by {
            assert(d[i] == h[i]);
        }
        assert forall|i: int, j: int| 0 <= i < j < d.len() implies !crate::board::same_cell(#[trigger] d[i].0, #[trigger] d[j].0) by {
            assert(d[i] == h[i]);
            assert(d[j] == h[j]);
        }
        law_save_then_restore(d);
        assert(ms.drop_last() =~= saved_moves(d));
        let last = h.last();
        assert(h[h.len() - 1] == last);
        assert(last.0.valid());
        let p = Pos::at(ms.last().col as int, ms.last().row as int);
        Pos::lemma_eq(p, last.0);
        assert(p == last.0);
        lemma_cell_of_none(d, last.0.col_spec(), last.0.row_spec());
        assert forall|i: int| 0 <= i < d.len() implies !((#[trigger] d[i]).0.col_spec() == last.0.col_spec()
            && d[i].0.row_spec() == last.0.row_spec()) by {
            assert(d[i] == h[i]);
            assert(!crate::board::same_cell(h[i].0, h[h.len() - 1].0));
        }
        assert(color_of(scolor_of(last.1)) == last.1);
        assert(h =~= d.push(last));
    }
}

/// Saving a colour and reading it back gives the same colour, and the other way round.
pub proof fn law_color_roundtrip(c: Color, s: SColor)
    ensures
        color_of(scolor_of(c)) == c,
        scolor_of(color_of(s)) == s,
{
}

/// Saving a game mode and reading it back gives the same mode.
pub proof fn law_mode_roundtrip(m: GameMode)
    ensures
        mode_of(smode_of(m)) == m,
{
}

} // verus!
