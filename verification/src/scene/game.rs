//! Game screen logic: board geometry, taps that place stones, the AI's turn, and what
//! the screen has still to draw.
use vstd::prelude::*;
use std::time::Instant;
use crate::board::{Board, Color, Pos, BOARD_SIZE, cell_at, cell_of, in_board, side_to_move, winner_of, group_pos};
use crate::clock::{instant_now, instant_elapsed, duration_millis};
use crate::engine::alphabeta::{AlphaBetaEngine, law_engine_move_is_legal, search_choice};
use crate::engine::{Engine, move_ok};

verus! {

broadcast use group_pos;

#[derive(Clone, Copy, Debug)]
pub enum GameMode {
    /// A human plays both sides locally.
    Pvp,
    /// The AI plays `ai`; the other colour is human.
    PvAi { ai: Color, depth: u8, time_budget_ms: u64 },
}

pub const SCREEN_W: i32 = 1404;

pub const SCREEN_H: i32 = 1872;

// ---- Geometry ----
pub const CELL_PX: i32 = 74;

/// Width of the grid: `CELL_PX * (BOARD_SIZE - 1)`.
pub const BOARD_PX: i32 = 1332;

/// Left edge of the grid: `(SCREEN_W - BOARD_PX) / 2`.
pub const BOARD_LEFT: i32 = 36;

pub const BOARD_TOP: i32 = 280;

pub const STONE_RADIUS: u32 = 30;

pub const HIT_RADIUS: i32 = 40;

/// Milliseconds after the screen opens during which taps are ignored (the launching
/// tap is still in progress).
pub const INPUT_GATE_MS: u128 = 250;

/// Screen coordinates of the intersection at (col, row).
pub open spec fn px_of(col: int, row: int) -> (int, int) {
    (BOARD_LEFT + col * CELL_PX, BOARD_TOP + row * CELL_PX)
}

/// `d / m` rounded to the nearest integer, halves away from zero.
pub open spec fn round_div(d: int, m: int) -> int {
    if d >= 0 {
        (2 * d + m) / (2 * m)
    } else {
        -((-2 * d + m) / (2 * m))
    }
}

/// The board line (column or row) nearest to an offset `d` from the first line: `d`
/// divided by the spacing, rounded, and kept on the board.
pub open spec fn nearest_line(d: int) -> int {
    let q = round_div(d, CELL_PX as int);
    if q < 0 {
        0
    } else if q > 18 {
        18
    } else {
        q
    }
}

/// Squared distance from the point (x, y) to the intersection at (col, row).
pub open spec fn dist2(x: int, y: int, col: int, row: int) -> int {
    let dx = x - px_of(col, row).0;
    let dy = y - px_of(col, row).1;
    dx * dx + dy * dy
}

/// The intersection nearest to the point (x, y), if the point is within `HIT_RADIUS`
/// of it.
pub open spec fn grid_of(x: int, y: int) -> Option<Pos> {
    let col = nearest_line(x - BOARD_LEFT);
    let row = nearest_line(y - BOARD_TOP);
    if dist2(x, y, col, row) > HIT_RADIUS * HIT_RADIUS {
        None
    } else {
        Some(Pos::at(col, row))
    }
}

pub fn grid_to_px(p: Pos) -> (r: (i32, i32))
    ensures
        r.0 == px_of(p.col_spec(), p.row_spec()).0,
        r.1 == px_of(p.col_spec(), p.row_spec()).1,
{
    (BOARD_LEFT + p.col() as i32 * CELL_PX, BOARD_TOP + p.row() as i32 * CELL_PX)
}

/// `d / CELL_PX` rounded half away from zero.
fn round_cells(d: i64) -> (r: i64)
    requires
        -0x1_0000_0000 <= d <= 0x1_0000_0000,
    ensures
        r == round_div(d as int, CELL_PX as int),
{
    if d >= 0 {
        (2 * d + 74) / 148
    } else {
        let q = (74 - 2 * d) / 148;
        -q
    }
}

/// A line number kept on the board: below the first line, the first; past the last,
/// the last.
fn clamp_line(q: i64) -> (r: i64)
    ensures
        r == (if q < 0 {
            0
        } else if q > 18 {
            18
        } else {
            q
        }),
{
    if q < 0 {
        0
    } else if q > 18 {
        18
    } else {
        q
    }
}

/// Convert screen coordinates to the nearest grid intersection if within `HIT_RADIUS`.
pub fn px_to_grid(x: i32, y: i32) -> (r: Option<Pos>)
    requires
        x - BOARD_LEFT >= i32::MIN,
        y - BOARD_TOP >= i32::MIN,
    ensures
        r == grid_of(x as int, y as int),
{
    let col = clamp_line(round_cells(x as i64 - BOARD_LEFT as i64));
    let row = clamp_line(round_cells(y as i64 - BOARD_TOP as i64));
    let cx = BOARD_LEFT as i64 + col * CELL_PX as i64;
    let cy = BOARD_TOP as i64 + row * CELL_PX as i64;
    let dx = x as i64 - cx;
    let dy = y as i64 - cy;
    assert(-0x1_0000_0000 <= dx <= 0x1_0000_0000);
    assert(-0x1_0000_0000 <= dy <= 0x1_0000_0000);
    assert(0 <= dx * dx <= 0x1_0000_0000 * 0x1_0000_0000) by (nonlinear_arith)
        requires
            -0x1_0000_0000 <= dx <= 0x1_0000_0000,
    ;
    assert(0 <= dy * dy <= 0x1_0000_0000 * 0x1_0000_0000) by (nonlinear_arith)
        requires
            -0x1_0000_0000 <= dy <= 0x1_0000_0000,
    ;
    let d2 = (dx as i128) * (dx as i128) + (dy as i128) * (dy as i128);
    if d2 > (HIT_RADIUS * HIT_RADIUS) as i128 {
        return None;
    }
    Some(Pos::new(col as usize, row as usize))
}

/// Tapping exactly on an intersection selects it.
pub proof fn law_tap_on_intersection(p: Pos)
    requires
        p.valid(),
    ensures
        grid_of(px_of(p.col_spec(), p.row_spec()).0, px_of(p.col_spec(), p.row_spec()).1) == Some(p),
{
    let c = p.col_spec();
    let r = p.row_spec();
    let x = BOARD_LEFT + c * CELL_PX;
    let y = BOARD_TOP + r * CELL_PX;
    assert(round_div(x - BOARD_LEFT, 74) == c) by (nonlinear_arith)
        requires
            x - BOARD_LEFT == c * 74,
            0 <= c < 19,
    ;
    assert(round_div(y - BOARD_TOP, 74) == r) by (nonlinear_arith)
        requires
            y - BOARD_TOP == r * 74,
            0 <= r < 19,
    ;
    assert(nearest_line(x - BOARD_LEFT) == c);
    assert(nearest_line(y - BOARD_TOP) == r);
    assert(x - px_of(c, r).0 == 0);
    assert(y - px_of(c, r).1 == 0);
    assert(dist2(x, y, c, r) == 0) by (nonlinear_arith)
        requires
            x - px_of(c, r).0 == 0,
            y - px_of(c, r).1 == 0,
    ;
    Pos::lemma_eq(Pos::at(c, r), p);
}

/// `d` lies within half a spacing of the line it rounds to.
proof fn lemma_round_near(d: int)
    ensures
        74 * round_div(d, 74) - 37 <= d <= 74 * round_div(d, 74) + 37,
{
    if d >= 0 {
        let q = (2 * d + 74) / 148;
        assert(148 * q <= 2 * d + 74 < 148 * q + 148) by (nonlinear_arith)
            requires
                q == (2 * d + 74) / 148,
        ;
    } else {
        let m = (-2 * d + 74) / 148;
        assert(148 * m <= -2 * d + 74 < 148 * m + 148) by (nonlinear_arith)
            requires
                m == (-2 * d + 74) / 148,
        ;
    }
}

/// No board line is nearer to the offset `d` than `nearest_line(d)`.
proof fn lemma_nearest_line(d: int, c: int)
    requires
        0 <= c < 19,
    ensures
        0 <= nearest_line(d) < 19,
        (d - 74 * nearest_line(d)) * (d - 74 * nearest_line(d)) <= (d - 74 * c) * (d - 74 * c),
{
    lemma_round_near(d);
    let k = nearest_line(d);
    let a = d - 74 * k;
    let b = d - 74 * c;
    let ab = if b >= 0 {
        b
    } else {
        -b
    };
    assert(-ab <= a <= ab);
    assert(a * a <= b * b) by (nonlinear_arith)
        requires
            -ab <= a <= ab,
            ab == b || ab == -b,
    ;
}

/// A tap selects the intersection nearest to it, exactly when that one is within
/// `HIT_RADIUS`: what it selects is within the radius and no intersection is nearer,
/// and when it selects nothing every intersection is farther than the radius.
pub proof fn law_tap_nearest(x: int, y: int, col: int, row: int)
    requires
        0 <= col < 19,
        0 <= row < 19,
    ensures
        grid_of(x, y) matches Some(p) ==> p.valid() && dist2(x, y, p.col_spec(), p.row_spec())
            <= HIT_RADIUS * HIT_RADIUS && dist2(x, y, p.col_spec(), p.row_spec()) <= dist2(x, y, col, row),
        grid_of(x, y) is None ==> dist2(x, y, col, row) > HIT_RADIUS * HIT_RADIUS,
{
    let c = nearest_line(x - BOARD_LEFT);
    let r = nearest_line(y - BOARD_TOP);
    lemma_nearest_line(x - BOARD_LEFT, col);
    lemma_nearest_line(y - BOARD_TOP, row);
    assert(x - px_of(c, r).0 == (x - BOARD_LEFT) - 74 * c);
    assert(y - px_of(c, r).1 == (y - BOARD_TOP) - 74 * r);
    assert(x - px_of(col, row).0 == (x - BOARD_LEFT) - 74 * col);
    assert(y - px_of(col, row).1 == (y - BOARD_TOP) - 74 * row);
    assert(dist2(x, y, c, r) <= dist2(x, y, col, row));
}

/// Whether a screen open for `elapsed_ms` milliseconds takes taps: not before
/// `INPUT_GATE_MS` have passed.
pub fn input_gate_open(elapsed_ms: u128) -> (r: bool)
    ensures
        r == (elapsed_ms >= INPUT_GATE_MS),
{
    elapsed_ms >= INPUT_GATE_MS
}

pub struct GameScene {
    board: Board,
    mode: GameMode,
    engine: Option<AlphaBetaEngine>,
    winner: Option<Color>,
    banner_pending: bool,
    needs_full_redraw: bool,
    last_drawn_history_len: usize,
    started_at: Instant,
}

/// The engine a mode calls for.
pub open spec fn engine_for(mode: GameMode) -> Option<(u8, u64)> {
    match mode {
        GameMode::PvAi { depth, time_budget_ms, .. } => Some((depth, time_budget_ms)),
        GameMode::Pvp => None,
    }
}

/// Some intersection of the game `h` is still empty.
pub open spec fn has_room(h: Seq<(Pos, Color)>) -> bool {
    exists|col: int, row: int| in_board(col, row) && #[trigger] cell_of(h, col, row) is None
}

pub open spec fn ai_of(mode: GameMode) -> Option<Color> {
    match mode {
        GameMode::PvAi { ai, .. } => Some(ai),
        GameMode::Pvp => None,
    }
}

impl GameScene {
    pub closed spec fn board_spec(&self) -> Seq<(Pos, Color)> {
        self.board@
    }

    pub closed spec fn mode_spec(&self) -> GameMode {
        self.mode
    }

    pub closed spec fn winner_spec(&self) -> Option<Color> {
        self.winner
    }

    pub closed spec fn banner_spec(&self) -> bool {
        self.banner_pending
    }

    pub closed spec fn full_redraw_spec(&self) -> bool {
        self.needs_full_redraw
    }

    pub closed spec fn drawn_spec(&self) -> nat {
        self.last_drawn_history_len as nat
    }

    pub closed spec fn engine_spec(&self) -> Option<(u8, u64)> {
        match self.engine {
            Some(e) => Some((e.max_depth, e.time_budget_ms)),
            None => None,
        }
    }

    /// The board is well formed, the stones drawn so far are a prefix of its moves, and
    /// a banner is only pending for a game that has a winner.
    pub closed spec fn wf(&self) -> bool {
        &&& self.board.wf()
        &&& self.last_drawn_history_len <= self.board@.len()
        &&& self.banner_pending ==> self.winner is Some
    }

    /// A fresh game against the AI, which plays White at medium depth.
    pub fn new() -> (s: GameScene)
        ensures
            s.wf(),
            s.board_spec() == Seq::<(Pos, Color)>::empty(),
            s.mode_spec() == (GameMode::PvAi { ai: Color::White, depth: 4, time_budget_ms: 3000 }),
            s.engine_spec() == Some((4u8, 3000u64)),
            s.winner_spec() is None,
            !s.banner_spec(),
            s.full_redraw_spec(),
            s.drawn_spec() == 0,
    {
        Self::with_mode(GameMode::PvAi { ai: Color::White, depth: 4, time_budget_ms: 3000 })
    }

    /// A fresh game in `mode`.
    pub fn with_mode(mode: GameMode) -> (s: GameScene)
        ensures
            s.wf(),
            s.board_spec() == Seq::<(Pos, Color)>::empty(),
            s.mode_spec() == mode,
            s.engine_spec() == engine_for(mode),
            s.winner_spec() is None,
            !s.banner_spec(),
            s.full_redraw_spec(),
            s.drawn_spec() == 0,
    {
        let engine = match mode {
            GameMode::PvAi { depth, time_budget_ms, .. } => Some(
                AlphaBetaEngine::with_budget(depth, time_budget_ms),
            ),
            GameMode::Pvp => None,
        };
        GameScene {
            board: Board::new(),
            mode,
            engine,
            winner: None,
            banner_pending: false,
            needs_full_redraw: true,
            last_drawn_history_len: 0,
            started_at: instant_now(),
        }
    }

    /// A saved game in `mode` on `board`, continued; a game already won shows its banner.
    pub fn resume(mode: GameMode, board: Board) -> (s: GameScene)
        requires
            board.wf(),
        ensures
            s.wf(),
            s.board_spec() == board@,
            s.mode_spec() == mode,
            s.engine_spec() == engine_for(mode),
            s.winner_spec() == winner_of(board@),
            s.banner_spec() == (winner_of(board@) is Some),
            s.full_redraw_spec(),
            s.drawn_spec() == 0,
    {
        let mut s = Self::with_mode(mode);
        let w = board.winner();
        s.board = board;
        s.winner = w;
        s.banner_pending = w.is_some();
        s
    }

    /// The game on screen.
    pub fn board(&self) -> (b: &Board)
        requires
            self.wf(),
        ensures
            b.wf(),
            b@ == self.board_spec(),
    {
        &self.board
    }

    pub fn mode(&self) -> (m: GameMode)
        ensures
            m == self.mode_spec(),
    {
        self.mode
    }

    pub fn winner(&self) -> (w: Option<Color>)
        ensures
            w == self.winner_spec(),
    {
        self.winner
    }

    fn ai_side(&self) -> (r: Option<Color>)
        ensures
            r == ai_of(self.mode_spec()),
    {
        match self.mode {
            GameMode::PvAi { ai, .. } => Some(ai),
            GameMode::Pvp => None,
        }
    }

    /// A new game in the same mode.
    fn reset_game(&mut self)
        ensures
            final(self).wf(),
            final(self).board_spec() == Seq::<(Pos, Color)>::empty(),
            final(self).mode_spec() == old(self).mode_spec(),
            final(self).engine_spec() == old(self).engine_spec(),
            final(self).winner_spec() is None,
            !final(self).banner_spec(),
            final(self).full_redraw_spec(),
            final(self).drawn_spec() == 0,
    {
        self.board.reset();
        self.winner = None;
        self.banner_pending = false;
        self.needs_full_redraw = true;
        self.last_drawn_history_len = 0;
    }

    /// Whether the screen takes taps yet: the launching tap is ignored for a moment.
    /// The answer rests on the clock; what is decided from its reading is
    /// `input_gate_open`.
    pub fn accepts_input(&self) -> bool {
        let elapsed = instant_elapsed(&self.started_at);
        input_gate_open(duration_millis(&elapsed))
    }

    /// A tap at (x, y): after a win it starts a new game; otherwise, on a human's turn, a
    /// tap on an empty intersection places the stone of the side to move there, and a
    /// five ends the game. Against the AI, a tap on the AI's turn changes nothing: the AI
    /// plays its own colour.
    pub fn on_tap(&mut self, x: i32, y: i32)
        requires
            old(self).wf(),
            x - BOARD_LEFT >= i32::MIN,
            y - BOARD_TOP >= i32::MIN,
        ensures
            final(self).wf(),
            final(self).mode_spec() == old(self).mode_spec(),
            final(self).engine_spec() == old(self).engine_spec(),
            old(self).winner_spec() is Some ==> {
                &&& final(self).board_spec() == Seq::<(Pos, Color)>::empty()
                &&& final(self).winner_spec() is None
                &&& !final(self).banner_spec()
                &&& final(self).full_redraw_spec()
                &&& final(self).drawn_spec() == 0
            },
            old(self).winner_spec() is None ==> {
                let h = old(self).board_spec();
                let human_turn = ai_of(old(self).mode_spec()) != Some(side_to_move(h));
                let placed = human_turn && (grid_of(x as int, y as int) matches Some(p) && cell_at(h, p) is None);
                let h2 = if placed {
                    h.push((grid_of(x as int, y as int).unwrap(), side_to_move(h)))
                } else {
                    h
                };
                &&& final(self).board_spec() == h2
                &&& final(self).winner_spec() == (if placed {
                    winner_of(h2)
                } else {
                    None
                })
                &&& final(self).banner_spec() == (old(self).banner_spec() || (placed && winner_of(h2) is Some))
                &&& final(self).full_redraw_spec() == old(self).full_redraw_spec()
                &&& final(self).drawn_spec() == old(self).drawn_spec()
            },
    {
        // After a win, the next tap starts a new game.
        if self.winner.is_some() {
            self.reset_game();
            return;
        }
        let side = self.board.current_side();
        // The AI's colour is not the human's to play.
        match self.ai_side() {
            Some(ai) => {
                if ai == side {
                    return;
                }
            },
            None => {},
        }
        if let Some(pos) = px_to_grid(x, y) {
            if self.board.is_empty(pos) {
                self.board.place(pos, side);
                if let Some(w) = self.board.winner() {
                    self.winner = Some(w);
                    self.banner_pending = true;
                }
            }
        }
    }

    /// If the whole screen is due for drawing, the stones to draw (in order); the
    /// stones count as drawn from then on.
    pub fn take_full_redraw(&mut self) -> (r: Option<Vec<(Pos, Color)>>)
        requires
            old(self).wf(),
        ensures
            final(self).wf(),
            final(self).board_spec() == old(self).board_spec(),
            final(self).mode_spec() == old(self).mode_spec(),
            final(self).engine_spec() == old(self).engine_spec(),
            final(self).winner_spec() == old(self).winner_spec(),
            final(self).banner_spec() == old(self).banner_spec(),
            !final(self).full_redraw_spec(),
            old(self).full_redraw_spec() ==> (r matches Some(v) && v@ == old(self).board_spec()
                && final(self).drawn_spec() == old(self).board_spec().len()),
            !old(self).full_redraw_spec() ==> r is None && final(self).drawn_spec() == old(self).drawn_spec(),
    {
        if self.needs_full_redraw {
            let stones = self.board.stones();
            self.needs_full_redraw = false;
            self.last_drawn_history_len = self.board.move_count();
            Some(stones)
        } else {
            None
        }
    }

    /// The stones placed since the last drawing, in order; they count as drawn.
    pub fn take_new_moves(&mut self) -> (r: Vec<(Pos, Color)>)
        requires
            old(self).wf(),
        ensures
            final(self).wf(),
            final(self).board_spec() == old(self).board_spec(),
            final(self).mode_spec() == old(self).mode_spec(),
            final(self).engine_spec() == old(self).engine_spec(),
            final(self).winner_spec() == old(self).winner_spec(),
            final(self).banner_spec() == old(self).banner_spec(),
            final(self).full_redraw_spec() == old(self).full_redraw_spec(),
            r@ == old(self).board_spec().subrange(old(self).drawn_spec() as int, old(self).board_spec().len() as int),
            final(self).drawn_spec() == old(self).board_spec().len(),
    {
        let stones = self.board.stones();
        let n = stones.len();
        let mut out: Vec<(Pos, Color)> = Vec::new();
        let start = self.last_drawn_history_len;
        let mut i = start;
        while i < n
            invariant
                n == stones@.len(),
                start <= i <= n,
                out@ =~= stones@.subrange(start as int, i as int),
            decreases n - i,
        {
            out.push(stones[i]);
            i = i + 1;
        }
        self.last_drawn_history_len = n;
        out
    }

    /// If the game-over banner is due, the winner to show; the banner counts as shown.
    pub fn take_banner(&mut self) -> (r: Option<Option<Color>>)
        requires
            old(self).wf(),
        ensures
            final(self).wf(),
            final(self).board_spec() == old(self).board_spec(),
            final(self).mode_spec() == old(self).mode_spec(),
            final(self).engine_spec() == old(self).engine_spec(),
            final(self).winner_spec() == old(self).winner_spec(),
            !final(self).banner_spec(),
            final(self).full_redraw_spec() == old(self).full_redraw_spec(),
            final(self).drawn_spec() == old(self).drawn_spec(),
            r == (if old(self).banner_spec() {
                Some(old(self).winner_spec())
            } else {
                None
            }),
    {
        if self.banner_pending {
            self.banner_pending = false;
            Some(self.winner)
        } else {
            None
        }
    }

    /// The colour the AI is to play now, if it is the AI's turn in an unfinished game.
    pub fn ai_to_move(&self) -> (r: Option<Color>)
        requires
            self.wf(),
        ensures
            r == (if self.winner_spec() is None && self.engine_spec() is Some && ai_of(self.mode_spec())
                == Some(side_to_move(self.board_spec())) {
                ai_of(self.mode_spec())
            } else {
                None
            }),
    {
        if self.winner.is_some() || self.engine.is_none() {
            return None;
        }
        match self.ai_side() {
            Some(ai) => if self.board.current_side() == ai {
                Some(ai)
            } else {
                None
            },
            None => None,
        }
    }

    /// The AI's turn: the engine picks a move for its colour within the mode's time
    /// budget, and the move is played if its intersection is empty (it then counts as
    /// drawn). Returns the move played.
    pub fn play_ai_move(&mut self) -> (r: Option<Pos>)
        requires
            old(self).wf(),
        ensures
            final(self).wf(),
            final(self).mode_spec() == old(self).mode_spec(),
            final(self).engine_spec() == old(self).engine_spec(),
            final(self).full_redraw_spec() == old(self).full_redraw_spec(),
            r is Some <==> (ai_of(old(self).mode_spec()) is Some && old(self).engine_spec() is Some
                && has_room(old(self).board_spec())),
            ({
                let h = old(self).board_spec();
                match r {
                    Some(mv) => {
                        &&& ai_of(old(self).mode_spec()) matches Some(ai)
                        &&& old(self).engine_spec() is Some
                        &&& move_ok(h, mv)
                        &&& search_choice(h, ai, old(self).engine_spec().unwrap().0 as int, mv)
                        &&& cell_at(h, mv) is None
                        &&& final(self).board_spec() == h.push((mv, ai))
                        &&& final(self).drawn_spec() == h.len() + 1
                        &&& final(self).winner_spec() == (if winner_of(h.push((mv, ai))) is Some {
                            winner_of(h.push((mv, ai)))
                        } else {
                            old(self).winner_spec()
                        })
                        &&& final(self).banner_spec() == (old(self).banner_spec() || winner_of(
                            h.push((mv, ai)),
                        ) is Some)
                    },
                    None => {
                        &&& final(self).board_spec() == h
                        &&& final(self).drawn_spec() == old(self).drawn_spec()
                        &&& final(self).winner_spec() == old(self).winner_spec()
                        &&& final(self).banner_spec() == old(self).banner_spec()
                    },
                }
            }),
    {
        let ai = match self.ai_side() {
            Some(ai) => ai,
            None => return None,
        };
        let budget = match self.mode {
            GameMode::PvAi { time_budget_ms, .. } => time_budget_ms,
            _ => 3000,
        };
        let mv = match &mut self.engine {
            Some(engine) => engine.best_move(&self.board, ai, budget),
            None => return None,
        };
        proof {
            // With an empty intersection left, the engine's move is one.
            let h = self.board@;
            if has_room(h) {
                let (col, row) = choose|col: int, row: int| in_board(col, row) && #[trigger] cell_of(h, col, row) is None;
                law_engine_move_is_legal(h, mv, col, row);
            }
        }
        if self.board.is_empty(mv) {
            self.board.place(mv, ai);
            self.last_drawn_history_len = self.board.move_count();
            if let Some(w) = self.board.winner() {
                self.winner = Some(w);
                self.banner_pending = true;
            }
            Some(mv)
        } else {
            None
        }
    }
}

} // verus!
